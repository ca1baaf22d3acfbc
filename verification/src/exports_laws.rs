//! What a module exports, said of the entries of its export map.

use vstd::prelude::*;
use vstd::string::*;

use crate::exports::block_inner;
use crate::exports::block_line;
use crate::exports::bound_function;
use crate::exports::doc_of;
use crate::exports::entry_among;
use crate::exports::entry_key;
use crate::exports::entry_name;
use crate::exports::export_entries;
use crate::exports::export_map;
use crate::exports::exported;
use crate::exports::function_among;
use crate::exports::lines_above;
use crate::exports::member_of;
use crate::exports::members_of;
use crate::exports::params_among;
use crate::exports::params_of;
use crate::exports::signature_of;
use crate::exports::ExportView;
use crate::exports::ItemKind;
use crate::exports::unquoted;
use crate::places::range_of;
use crate::syntax::field_child;
use crate::syntax::first_within;
use crate::syntax::kids;
use crate::syntax::kind_child;
use crate::syntax::named_child;
use crate::syntax::sibling_before;
use crate::syntax::text_of;
use crate::syntax::text_or_empty;
use crate::syntax::NodeView;
use crate::syntax::TreeView;
use crate::syntax_laws::law_field_of_parent;
use crate::syntax_laws::law_first_within;
use crate::syntax_laws::law_kind_child;
use crate::syntax_laws::lemma_kid_bound;
use crate::text::joined;
use crate::text::lines_of;
use crate::text::trimmed;
use crate::text::trimmed_start;
use crate::text::without_head;
use crate::text::without_tail;
use crate::text::Class;
use crate::text_facts::lemma_trimmed_push;
use crate::text_facts::lemma_trimmed_start_of;

verus! {

/// Whether entry `e` has the node `k` with the text `text` as its key.
pub open spec fn keyed(source: Seq<char>, ns: Seq<NodeView>, e: int, k: int, text: Seq<char>) -> bool {
    ns[e].kind == "map_entry"@ && field_child(ns, e, "key"@) == Some(k) && text_of(source, ns[k])
        == Some(text)
}

/// The number of the entries before place `n` that have a key with a text.
pub open spec fn keyed_before(source: Seq<char>, ns: Seq<NodeView>, es: Seq<int>, n: int) -> nat
    decreases n,
{
    if n <= 0 {
        0
    } else if exists|k: int, text: Seq<char>| #[trigger] keyed(source, ns, es[n - 1], k, text) {
        keyed_before(source, ns, es, n - 1) + 1
    } else {
        keyed_before(source, ns, es, n - 1)
    }
}

proof fn lemma_member_keyed(source: Seq<char>, ns: Seq<NodeView>, e: int)
    ensures
        member_of(source, ns, e) is Some <==> exists|k: int, text: Seq<char>| #[trigger]
            keyed(source, ns, e, k, text),
        forall|k: int, text: Seq<char>| #[trigger]
            keyed(source, ns, e, k, text) ==> (member_of(source, ns, e) matches Some(m) && m.name
                == unquoted(text) && m.key_range == range_of(source, ns[k])),
{
    if member_of(source, ns, e) is Some {
        let k = field_child(ns, e, "key"@)->0;
        assert(keyed(source, ns, e, k, text_of(source, ns[k])->0));
    }
}

proof fn lemma_members(source: Seq<char>, ns: Seq<NodeView>, es: Seq<int>, n: int)
    requires
        0 <= n <= es.len(),
    ensures
        members_of(source, ns, es.take(n)).len() == keyed_before(source, ns, es, n),
        forall|i: int|
            0 <= i < n ==> (member_of(source, ns, #[trigger] es[i]) matches Some(m)
                ==> keyed_before(source, ns, es, i) < keyed_before(source, ns, es, n) && members_of(
                source,
                ns,
                es.take(n),
            )[keyed_before(source, ns, es, i) as int] == m),
    decreases n,
{
    if n > 0 {
        lemma_members(source, ns, es, n - 1);
        lemma_member_keyed(source, ns, es[n - 1]);
        assert(es.take(n).drop_last() =~= es.take(n - 1));
        assert(es.take(n).last() == es[n - 1]);
    } else {
        assert(es.take(0).len() == 0);
    }
}

/// The members of a module are its entries with keys, one for one and in their
/// order: entry `i` gives the member with as many before it as there are entries
/// with keys before `i`, under its key without quotes.
pub proof fn law_members_are_entries(source: Seq<char>, tree: TreeView)
    ensures
        ({
            let ns = tree.nodes;
            let es = export_entries(ns);
            let ms = exported(source, tree);
            &&& ms.len() == keyed_before(source, ns, es, es.len() as int)
            &&& forall|i: int, k: int, text: Seq<char>|
                0 <= i < es.len() && #[trigger] keyed(source, ns, es[i], k, text) ==> {
                    let at = keyed_before(source, ns, es, i) as int;
                    at < ms.len() && ms[at].name == unquoted(text) && ms[at].key_range == range_of(
                        source,
                        ns[k],
                    )
                }
        }),
{
    let ns = tree.nodes;
    let es = export_entries(ns);
    lemma_members(source, ns, es, es.len() as int);
    assert(es.take(es.len() as int) =~= es);
    assert forall|i: int, k: int, text: Seq<char>|
        0 <= i < es.len() && #[trigger] keyed(source, ns, es[i], k, text) implies {
        let at = keyed_before(source, ns, es, i) as int;
        let ms = exported(source, tree);
        at < ms.len() && ms[at].name == unquoted(text) && ms[at].key_range == range_of(source, ns[k])
    } by {
        lemma_member_keyed(source, ns, es[i]);
    }
}

/// The first entry of a name is the one that is found under it.
pub proof fn lemma_first_entry(
    source: Seq<char>,
    ns: Seq<NodeView>,
    es: Seq<int>,
    name: Seq<char>,
    i: int,
    k: int,
    text: Seq<char>,
)
    requires
        0 <= i < es.len(),
        keyed(source, ns, es[i], k, text),
        unquoted(text) == name,
        forall|h: int, k: int, text: Seq<char>|
            0 <= h < i && #[trigger] keyed(source, ns, es[h], k, text) ==> unquoted(text) != name,
    ensures
        entry_among(source, ns, es, name) == Some(es[i]),
        entry_key(ns, es[i]) == Some(k),
    decreases es.len(),
{
    if i > 0 {
        if entry_name(source, ns, es[0]) == Some(name) {
            let k0 = field_child(ns, es[0], "key"@)->0;
            assert(keyed(source, ns, es[0], k0, text_of(source, ns[k0])->0));
        }
        let rest = es.drop_first();
        assert(rest[i - 1] == es[i]);
        assert forall|h: int, k: int, text: Seq<char>|
            0 <= h < i - 1 && #[trigger] keyed(source, ns, rest[h], k, text) implies unquoted(text)
            != name by {
            assert(rest[h] == es[h + 1]);
        }
        lemma_first_entry(source, ns, rest, name, i - 1, k, text);
    }
}

/// Where no entry has a name, none is found under it.
pub proof fn lemma_no_entry(source: Seq<char>, ns: Seq<NodeView>, es: Seq<int>, name: Seq<char>)
    requires
        forall|h: int, k: int, text: Seq<char>|
            0 <= h < es.len() && #[trigger] keyed(source, ns, es[h], k, text) ==> unquoted(text)
                != name,
    ensures
        entry_among(source, ns, es, name) is None,
    decreases es.len(),
{
    if es.len() > 0 {
        if entry_name(source, ns, es[0]) == Some(name) {
            let k0 = field_child(ns, es[0], "key"@)->0;
            assert(keyed(source, ns, es[0], k0, text_of(source, ns[k0])->0));
        }
        let rest = es.drop_first();
        assert forall|h: int, k: int, text: Seq<char>|
            0 <= h < rest.len() && #[trigger] keyed(source, ns, rest[h], k, text) implies unquoted(
            text,
        ) != name by {
            assert(rest[h] == es[h + 1]);
        }
        lemma_no_entry(source, ns, rest, name);
    }
}

/// The entries that count are those of the first map within the first `export`
/// statement at the top of the file.
pub proof fn law_entries_of_the_export(ns: Seq<NodeView>, x: int, m: int)
    requires
        ns.len() > 0,
        kind_child(ns, 0, "export_statement"@) == Some(x),
        first_within(ns, x, "map_literal"@) == Some(m),
    ensures
        export_entries(ns) == kids(ns, m),
{
}

pub proof fn lemma_entry_bound(ns: Seq<NodeView>, i: int)
    requires
        0 <= i < export_entries(ns).len(),
        export_map(ns) matches Some(m) ==> 0 <= m,
    ensures
        0 <= export_entries(ns)[i] < ns.len(),
{
    let m = export_map(ns)->0;
    lemma_kid_bound(ns, m, m + 1, i);
}

pub proof fn lemma_member_at(source: Seq<char>, tree: TreeView, i: int)
    requires
        0 <= i < export_entries(tree.nodes).len(),
        member_of(source, tree.nodes, export_entries(tree.nodes)[i]) is Some,
    ensures
        ({
            let ns = tree.nodes;
            let es = export_entries(ns);
            let at = keyed_before(source, ns, es, i) as int;
            at < exported(source, tree).len() && exported(source, tree)[at] == member_of(
                source,
                ns,
                es[i],
            )->0
        }),
{
    let es = export_entries(tree.nodes);
    lemma_members(source, tree.nodes, es, es.len() as int);
    assert(es.take(es.len() as int) =~= es);
}

/// A function that is written in the export map itself is documented by the
/// comment right above its entry, and has its own parameters.
pub proof fn law_inline_function(
    source: Seq<char>,
    tree: TreeView,
    i: int,
    k: int,
    text: Seq<char>,
    v: int,
)
    requires
        0 <= i < export_entries(tree.nodes).len(),
        keyed(source, tree.nodes, export_entries(tree.nodes)[i], k, text),
        field_child(tree.nodes, export_entries(tree.nodes)[i], "value"@) == Some(v),
        tree.nodes[v].kind == "func_literal"@,
    ensures
        ({
            let es = export_entries(tree.nodes);
            let m = exported(source, tree)[keyed_before(source, tree.nodes, es, i) as int];
            m == (ExportView {
                name: unquoted(text),
                key_range: range_of(source, tree.nodes[k]),
                kind: ItemKind::Function,
                signature: Some(signature_of(source, tree.nodes, v)),
                doc: doc_of(source, tree.nodes, es[i]),
            })
        }),
{
    let ns = tree.nodes;
    let e = export_entries(ns)[i];
    lemma_member_keyed(source, ns, e);
    lemma_member_at(source, tree, i);
    lemma_map_bound(ns);
    lemma_entry_bound(ns, i);
    law_field_of_parent(ns, e, "value"@);
}

pub proof fn lemma_map_bound(ns: Seq<NodeView>)
    ensures
        export_map(ns) matches Some(m) ==> 0 <= m < ns.len(),
{
    if ns.len() > 0 {
        if let Some(e) = kind_child(ns, 0, "export_statement"@) {
            law_kind_child(ns, 0, "export_statement"@);
            law_first_within(ns, e, "map_literal"@);
        }
    }
}

/// Whether statement `c` binds `name` to the function `v`: `name := func..` or
/// a declaration of it.
pub open spec fn binds_function(
    source: Seq<char>,
    ns: Seq<NodeView>,
    c: int,
    name: Seq<char>,
    v: int,
) -> bool {
    &&& ns[v].kind == "func_literal"@
    &&& {
        ||| ns[c].kind == "var_declaration"@ && field_child(ns, c, "value"@) == Some(v) && (
        field_child(ns, c, "name"@) matches Some(n) && ns[n].kind == "identifier"@ && text_or_empty(
            source,
            ns[n],
        ) == name)
        ||| ns[c].kind == "assignment_statement"@ && field_child(ns, c, "right"@) == Some(v) && (
        field_child(ns, c, "left"@) matches Some(n) && ns[n].kind == "identifier"@ && text_or_empty(
            source,
            ns[n],
        ) == name) && (field_child(ns, c, "operator"@) matches Some(o) && ns[o].kind == ":="@)
    }
}

proof fn lemma_bound_function(source: Seq<char>, ns: Seq<NodeView>, c: int, name: Seq<char>)
    ensures
        forall|v: int| #[trigger]
            binds_function(source, ns, c, name, v) <==> bound_function(source, ns, c, name) == Some(
                v,
            ),
{
    reveal_strlit("var_declaration");
    reveal_strlit("assignment_statement");
    assert("var_declaration"@.len() != "assignment_statement"@.len());
}

proof fn lemma_function_among(
    source: Seq<char>,
    ns: Seq<NodeView>,
    cs: Seq<int>,
    name: Seq<char>,
    j: int,
    v: int,
)
    requires
        0 <= j < cs.len(),
        binds_function(source, ns, cs[j], name, v),
        forall|i: int, u: int| 0 <= i < j ==> !(#[trigger] binds_function(source, ns, cs[i], name, u)),
    ensures
        function_among(source, ns, cs, name) == Some((cs[j], v)),
    decreases cs.len(),
{
    lemma_bound_function(source, ns, cs[0], name);
    if j > 0 {
        if let Some(u) = bound_function(source, ns, cs[0], name) {
            assert(binds_function(source, ns, cs[0], name, u));
        }
        let rest = cs.drop_first();
        assert(rest[j - 1] == cs[j]);
        assert forall|i: int, u: int| 0 <= i < j - 1 implies !(#[trigger] binds_function(
            source,
            ns,
            rest[i],
            name,
            u,
        )) by {
            assert(rest[i] == cs[i + 1]);
        }
        lemma_function_among(source, ns, rest, name, j - 1, v);
    }
}

proof fn lemma_no_function_among(
    source: Seq<char>,
    ns: Seq<NodeView>,
    cs: Seq<int>,
    name: Seq<char>,
)
    requires
        forall|i: int, u: int|
            0 <= i < cs.len() ==> !(#[trigger] binds_function(source, ns, cs[i], name, u)),
    ensures
        function_among(source, ns, cs, name) is None,
    decreases cs.len(),
{
    if cs.len() > 0 {
        lemma_bound_function(source, ns, cs[0], name);
        if let Some(u) = bound_function(source, ns, cs[0], name) {
            assert(binds_function(source, ns, cs[0], name, u));
        }
        let rest = cs.drop_first();
        assert forall|i: int, u: int| 0 <= i < rest.len() implies !(#[trigger] binds_function(
            source,
            ns,
            rest[i],
            name,
            u,
        )) by {
            assert(rest[i] == cs[i + 1]);
        }
        lemma_no_function_among(source, ns, rest, name);
    }
}

/// An exported name is the function that the first of the file's statements
/// binds to it: its parameters and the comment right above that statement are
/// the member's.
pub proof fn law_named_function(
    source: Seq<char>,
    tree: TreeView,
    i: int,
    k: int,
    text: Seq<char>,
    x: int,
    j: int,
    v: int,
)
    requires
        0 <= i < export_entries(tree.nodes).len(),
        keyed(source, tree.nodes, export_entries(tree.nodes)[i], k, text),
        field_child(tree.nodes, export_entries(tree.nodes)[i], "value"@) == Some(x),
        tree.nodes[x].kind == "identifier"@,
        0 <= j < kids(tree.nodes, 0).len(),
        binds_function(
            source,
            tree.nodes,
            kids(tree.nodes, 0)[j],
            text_or_empty(source, tree.nodes[x]),
            v,
        ),
        forall|h: int, u: int|
            0 <= h < j ==> !(#[trigger] binds_function(
                source,
                tree.nodes,
                kids(tree.nodes, 0)[h],
                text_or_empty(source, tree.nodes[x]),
                u,
            )),
    ensures
        ({
            let es = export_entries(tree.nodes);
            let m = exported(source, tree)[keyed_before(source, tree.nodes, es, i) as int];
            m == (ExportView {
                name: unquoted(text),
                key_range: range_of(source, tree.nodes[k]),
                kind: ItemKind::Function,
                signature: Some(signature_of(source, tree.nodes, v)),
                doc: doc_of(source, tree.nodes, kids(tree.nodes, 0)[j]),
            })
        }),
{
    let ns = tree.nodes;
    let e = export_entries(ns)[i];
    lemma_member_keyed(source, ns, e);
    lemma_member_at(source, tree, i);
    lemma_function_among(source, ns, kids(ns, 0), text_or_empty(source, ns[x]), j, v);
    reveal_strlit("identifier");
    reveal_strlit("func_literal");
    assert("identifier"@.len() != "func_literal"@.len());
}

/// Any other member is a variable, with no signature and no documentation.
pub proof fn law_plain_member(source: Seq<char>, tree: TreeView, i: int, k: int, text: Seq<char>)
    requires
        0 <= i < export_entries(tree.nodes).len(),
        keyed(source, tree.nodes, export_entries(tree.nodes)[i], k, text),
        match field_child(tree.nodes, export_entries(tree.nodes)[i], "value"@) {
            Some(v) => tree.nodes[v].kind != "func_literal"@ && (tree.nodes[v].kind
                == "identifier"@ ==> forall|h: int, u: int|
                0 <= h < kids(tree.nodes, 0).len() ==> !(#[trigger] binds_function(
                    source,
                    tree.nodes,
                    kids(tree.nodes, 0)[h],
                    text_or_empty(source, tree.nodes[v]),
                    u,
                ))),
            None => true,
        },
    ensures
        ({
            let es = export_entries(tree.nodes);
            let m = exported(source, tree)[keyed_before(source, tree.nodes, es, i) as int];
            m == (ExportView {
                name: unquoted(text),
                key_range: range_of(source, tree.nodes[k]),
                kind: ItemKind::Variable,
                signature: None,
                doc: None,
            })
        }),
{
    let ns = tree.nodes;
    let e = export_entries(ns)[i];
    lemma_member_keyed(source, ns, e);
    lemma_member_at(source, tree, i);
    if let Some(v) = field_child(ns, e, "value"@) {
        if ns[v].kind == "identifier"@ {
            lemma_no_function_among(source, ns, kids(ns, 0), text_or_empty(source, ns[v]));
        }
    }
}

/// Whether node `p` is a parameter: a name, or a rest parameter.
pub open spec fn is_param(ns: Seq<NodeView>, p: int) -> bool {
    ns[p].named && (ns[p].kind == "identifier"@ || ns[p].kind == "variadic_parameter"@)
}

/// How parameter `p` is written in a signature.
pub open spec fn param_written(source: Seq<char>, ns: Seq<NodeView>, p: int) -> Seq<char> {
    if ns[p].kind == "identifier"@ {
        text_or_empty(source, ns[p])
    } else {
        "..."@ + (match named_child(ns, p) {
            Some(x) => text_or_empty(source, ns[x]),
            None => seq![],
        })
    }
}

proof fn lemma_params_among(source: Seq<char>, ns: Seq<NodeView>, ps: Seq<int>)
    ensures
        params_among(source, ns, ps) == ps.filter(|p: int| is_param(ns, p)).map_values(
            |p: int| param_written(source, ns, p),
        ),
    decreases ps.len(),
{
    reveal(Seq::filter);
    let keep = |p: int| is_param(ns, p);
    let write = |p: int| param_written(source, ns, p);
    let all = ps.filter(keep).map_values(write);
    if ps.len() == 0 {
        assert(params_among(source, ns, ps) =~= all);
    } else {
        lemma_params_among(source, ns, ps.drop_last());
        let rest = ps.drop_last().filter(keep);
        if is_param(ns, ps.last()) {
            assert(rest.push(ps.last()).map_values(write) =~= rest.map_values(write).push(
                write(ps.last()),
            ));
        }
        assert(params_among(source, ns, ps) =~= all);
    }
}

proof fn lemma_one_list(source: Seq<char>, ns: Seq<NodeView>, cs: Seq<int>, at: int)
    requires
        0 <= at < cs.len(),
        ns[cs[at]].kind == "parameter_list"@,
        forall|i: int|
            0 <= i < cs.len() && i != at ==> ns[#[trigger] cs[i]].kind != "parameter_list"@,
    ensures
        params_of(source, ns, cs) == params_among(source, ns, kids(ns, cs[at])),
    decreases cs.len(),
{
    if at == cs.len() - 1 {
        lemma_no_list(source, ns, cs.drop_last());
        assert(Seq::<Seq<char>>::empty() + params_among(source, ns, kids(ns, cs[at]))
            =~= params_among(source, ns, kids(ns, cs[at])));
    } else {
        assert(ns[cs[cs.len() - 1]].kind != "parameter_list"@);
        lemma_one_list(source, ns, cs.drop_last(), at);
    }
}

proof fn lemma_no_list(source: Seq<char>, ns: Seq<NodeView>, cs: Seq<int>)
    requires
        forall|i: int| 0 <= i < cs.len() ==> ns[#[trigger] cs[i]].kind != "parameter_list"@,
    ensures
        params_of(source, ns, cs) == Seq::<Seq<char>>::empty(),
    decreases cs.len(),
{
    if cs.len() > 0 {
        assert(ns[cs[cs.len() - 1]].kind != "parameter_list"@);
        lemma_no_list(source, ns, cs.drop_last());
    }
}

/// The signature of a function lists all that stands in its parameter list, in
/// order: each name as it is written, a rest parameter behind three dots. A
/// function without a parameter list has none.
pub proof fn law_signature(source: Seq<char>, ns: Seq<NodeView>, v: int)
    ensures
        forall|at: int|
            0 <= at < kids(ns, v).len() && ns[#[trigger] kids(ns, v)[at]].kind
                == "parameter_list"@ && (forall|i: int|
                0 <= i < kids(ns, v).len() && i != at ==> ns[#[trigger] kids(ns, v)[i]].kind
                    != "parameter_list"@) ==> signature_of(source, ns, v) == "("@ + joined(
                kids(ns, kids(ns, v)[at]).filter(|p: int| is_param(ns, p)).map_values(
                    |p: int| param_written(source, ns, p),
                ),
                ", "@,
            ) + ")"@,
        (forall|i: int|
            0 <= i < kids(ns, v).len() ==> ns[#[trigger] kids(ns, v)[i]].kind
                != "parameter_list"@) ==> signature_of(source, ns, v) == "()"@,
{
    assert forall|at: int|
        0 <= at < kids(ns, v).len() && ns[#[trigger] kids(ns, v)[at]].kind == "parameter_list"@ && (
        forall|i: int|
            0 <= i < kids(ns, v).len() && i != at ==> ns[#[trigger] kids(ns, v)[i]].kind
                != "parameter_list"@) implies signature_of(source, ns, v) == "("@ + joined(
        kids(ns, kids(ns, v)[at]).filter(|p: int| is_param(ns, p)).map_values(
            |p: int| param_written(source, ns, p),
        ),
        ", "@,
    ) + ")"@ by {
        lemma_one_list(source, ns, kids(ns, v), at);
        lemma_params_among(source, ns, kids(ns, kids(ns, v)[at]));
    }
    if forall|i: int|
        0 <= i < kids(ns, v).len() ==> ns[#[trigger] kids(ns, v)[i]].kind != "parameter_list"@ {
        lemma_no_list(source, ns, kids(ns, v));
        reveal_strlit("(");
        reveal_strlit(")");
        reveal_strlit("()");
        assert(signature_of(source, ns, v) =~= "()"@);
    }
}

/// Whether node `p` is the comment right above node `i`: what stands before it,
/// ending in the row before it.
pub open spec fn right_above(ns: Seq<NodeView>, p: int, i: int) -> bool {
    sibling_before(ns, i) == Some(p) && 0 <= p < i && ns[p].kind == "comment"@ && ns[p].end.row + 1
        == ns[i].start.row
}

/// Whether node `p` is a comment to the end of its line.
pub open spec fn line_comment(source: Seq<char>, ns: Seq<NodeView>, p: int) -> bool {
    "//"@.is_prefix_of(text_or_empty(source, ns[p]))
}

/// Nothing but a comment right above a node documents it.
pub proof fn law_doc_stands_right_above(source: Seq<char>, ns: Seq<NodeView>, i: int)
    requires
        sibling_before(ns, i) matches Some(p) ==> 0 <= p < i,
    ensures
        doc_of(source, ns, i) is Some ==> exists|p: int| #[trigger] right_above(ns, p, i),
{
    if let Some(p) = sibling_before(ns, i) {
        assert(doc_of(source, ns, i) is Some ==> right_above(ns, p, i));
    }
}

/// A run of line comments right above a node documents it, each comment with one
/// line, which is its text without its slashes and the white space behind them:
/// the documentation of a node is that of the last comment above it, and then
/// that comment's line.
pub proof fn law_line_comments(source: Seq<char>, ns: Seq<NodeView>, i: int, p: int)
    requires
        right_above(ns, p, i),
        line_comment(source, ns, p),
    ensures
        ({
            let line = trimmed_start(
                trimmed_start(text_or_empty(source, ns[p]), Class::Only('/')),
                Class::Space,
            );
            doc_of(source, ns, i) == Some(
                if exists|q: int| #[trigger] right_above(ns, q, p) && line_comment(source, ns, q) {
                    doc_of(source, ns, p)->0 + "\n"@ + line
                } else {
                    line
                },
            )
        }),
{
    let above = lines_above(source, ns, p, ns[p].start.row);
    let all = lines_above(source, ns, i, ns[i].start.row);
    reveal_strlit("/*");
    reveal_strlit("//");
    let text = text_or_empty(source, ns[p]);
    assert(text[1] == "//"@[1]);
    assert(!"/*"@.is_prefix_of(text));
    let line = trimmed_start(trimmed_start(text, Class::Only('/')), Class::Space);
    assert(all == above.push(line));
    assert(all.drop_last() =~= above);
    reveal_with_fuel(joined, 2);
    if exists|q: int| #[trigger] right_above(ns, q, p) && line_comment(source, ns, q) {
        let q = choose|q: int| #[trigger] right_above(ns, q, p) && line_comment(source, ns, q);
        let t = text_or_empty(source, ns[q]);
        assert(t[1] == "//"@[1]);
        assert(!"/*"@.is_prefix_of(t));
        assert(above.len() > 0);
        assert(doc_of(source, ns, p) == Some(joined(above, "\n"@)));
    } else {
        if let Some(q) = sibling_before(ns, p) {
            assert(!(right_above(ns, q, p) && line_comment(source, ns, q)));
        }
        assert(above =~= seq![]);
    }
}

proof fn lemma_without_head(lines: Seq<Seq<char>>) -> (a: int)
    ensures
        0 <= a <= lines.len(),
        without_head(lines) == lines.skip(a),
        forall|k: int| 0 <= k < a ==> (#[trigger] lines[k]).len() == 0,
        a < lines.len() ==> lines[a].len() > 0,
    decreases lines.len(),
{
    if lines.len() > 0 && lines[0].len() == 0 {
        let rest = lines.drop_first();
        let a = lemma_without_head(rest);
        assert(rest.skip(a) =~= lines.skip(a + 1));
        assert forall|k: int| 0 <= k < a + 1 implies (#[trigger] lines[k]).len() == 0 by {
            if k > 0 {
                assert(rest[k - 1] == lines[k]);
            }
        }
        a + 1
    } else {
        assert(lines.skip(0) =~= lines);
        0
    }
}

proof fn lemma_without_tail(lines: Seq<Seq<char>>) -> (b: int)
    ensures
        0 <= b <= lines.len(),
        without_tail(lines) == lines.take(b),
        forall|k: int| b <= k < lines.len() ==> (#[trigger] lines[k]).len() == 0,
        b > 0 ==> lines[b - 1].len() > 0,
    decreases lines.len(),
{
    if lines.len() > 0 && lines.last().len() == 0 {
        let rest = lines.drop_last();
        let b = lemma_without_tail(rest);
        assert(rest.take(b) =~= lines.take(b));
        assert forall|k: int| b <= k < lines.len() implies (#[trigger] lines[k]).len() == 0 by {
            if k < rest.len() {
                assert(rest[k] == lines[k]);
            }
        }
        b
    } else {
        assert(lines.take(lines.len() as int) =~= lines);
        lines.len() as int
    }
}

/// A line of a block comment without the white space and the stars around it.
pub open spec fn clean(line: Seq<char>) -> Seq<char> {
    trimmed(trimmed_start(trimmed(line), Class::Only('*')))
}

/// Whether lines `a` to `b` are those that say something: the others before and
/// behind them are blank.
pub open spec fn speaks(lines: Seq<Seq<char>>, a: int, b: int) -> bool {
    &&& 0 <= a <= b <= lines.len()
    &&& forall|k: int| 0 <= k < a || b <= k < lines.len() ==> clean(#[trigger] lines[k]).len() == 0
    &&& a < b ==> clean(lines[a]).len() > 0 && clean(lines[b - 1]).len() > 0
}

/// A block comment right above a node documents it, with the lines between its
/// signs, each without white space and stars before it, from the first that
/// says something to the last.
pub proof fn law_block_comment(
    source: Seq<char>,
    ns: Seq<NodeView>,
    i: int,
    p: int,
    inner: Seq<char>,
)
    requires
        right_above(ns, p, i),
        text_or_empty(source, ns[p]) == "/**"@ + inner + "*/"@ || (text_or_empty(source, ns[p])
            == "/*"@ + inner + "*/"@ && (inner.len() > 0 ==> inner[0] != '*')),
    ensures
        exists|a: int, b: int| #[trigger]
            speaks(lines_of(inner), a, b) && doc_of(source, ns, i) == (if a == b {
                None
            } else {
                Some(
                    joined(
                        lines_of(inner).subrange(a, b).map_values(|l: Seq<char>| clean(l)),
                        "\n"@,
                    ),
                )
            }),
{
    let text = text_or_empty(source, ns[p]);
    reveal_strlit("/**");
    reveal_strlit("/*");
    reveal_strlit("*/");
    assert("/*"@.is_prefix_of(text)) by {
        assert(text.take(2) =~= "/*"@);
    }
    assert(block_inner(text) == inner) by {
        if text == "/**"@ + inner + "*/"@ {
            assert(text.take(3) =~= "/**"@);
            let rest = text.skip(3);
            assert(rest =~= inner + "*/"@);
            assert(rest.skip(rest.len() - 2) =~= "*/"@);
            assert(rest.take(rest.len() - 2) =~= inner);
        } else {
            let rest = text.skip(2);
            assert(rest =~= inner + "*/"@);
            assert(rest.skip(rest.len() - 2) =~= "*/"@);
            assert(rest.take(rest.len() - 2) =~= inner);
            if "/**"@.is_prefix_of(text) {
                assert(text[2] == "/**"@[2]);
                assert(inner.len() == 0);
                assert(text.skip(3).len() == 1);
            }
        }
    }
    let ls = lines_of(inner);
    let f = |l: Seq<char>| clean(l);
    let g = |l: Seq<char>| block_line(l);
    let all = ls.map_values(g);
    assert(all =~= ls.map_values(f));
    let a = lemma_without_head(all);
    let mid = all.skip(a);
    let n = lemma_without_tail(mid);
    let b = a + n;
    assert(mid.take(n) =~= ls.subrange(a, b).map_values(f));
    assert forall|k: int| 0 <= k < a || b <= k < ls.len() implies clean(#[trigger] ls[k]).len()
        == 0 by {
        assert(all[k] == clean(ls[k]));
        if k >= b {
            assert(mid[k - a] == all[k]);
        }
    }
    if a < b {
        assert(all[a] == clean(ls[a]));
        assert(mid[n - 1] == all[b - 1]);
        assert(all[b - 1] == clean(ls[b - 1]));
    }
    assert(speaks(ls, a, b));
}

/// Quotes around a name are no part of it, and a name without quotes at its ends
/// stays as it is.
pub proof fn law_quotes(s: Seq<char>)
    requires
        s.len() > 0 ==> s[0] != '"' && s.last() != '"',
    ensures
        unquoted(s) == s,
        unquoted("\""@ + s + "\""@) == s,
{
    reveal_strlit("\"");
    let q = Class::Only('"');
    let all = "\""@ + s + "\""@;
    lemma_trimmed_push("\""@ + s, '"', q);
    assert(all =~= ("\""@ + s).push('"'));
    lemma_trimmed_start_of("\""@, s, q);
}

/// A file without an `export` statement at its top exports nothing, whatever maps
/// it holds.
pub proof fn law_nothing_exported(source: Seq<char>, tree: TreeView)
    requires
        tree.nodes.len() > 0 ==> kind_child(tree.nodes, 0, "export_statement"@) is None,
    ensures
        exported(source, tree).len() == 0,
{
}

} // verus!
