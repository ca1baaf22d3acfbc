//! What an outline shows, said of the statements and maps of a file.

use vstd::prelude::*;
use vstd::string::*;

use crate::exports::exported;
use crate::exports::signature_of;
use crate::exports::unquoted;
use crate::exports::ItemKind;
use crate::outline::decimal;
use crate::outline::digits;
use crate::outline::end_from;
use crate::outline::entries_of;
use crate::outline::entry_at;
use crate::outline::method_at;
use crate::outline::methods_from;
use crate::outline::outlined;
use crate::outline::subtree_end;
use crate::outline::LspKind;
use crate::outline::SymbolTree;
use crate::places::range_of;
use crate::symbols::definition_at;
use crate::symbols_laws::binds;
use crate::symbols_laws::bound_value;
use crate::syntax::field_child;
use crate::syntax::kids;
use crate::syntax::kind_child;
use crate::syntax::text_of;
use crate::syntax::NodeView;
use crate::syntax::TreeView;
use crate::syntax_laws::law_field_of_parent;
use crate::syntax_laws::within;

verus! {

/// Whether statement `c` defines the name `name` at node `i`.
pub open spec fn declares_name(
    source: Seq<char>,
    ns: Seq<NodeView>,
    c: int,
    i: int,
    name: Seq<char>,
) -> bool {
    (ns[c].kind == "var_declaration"@ || ns[c].kind == "assignment_statement"@) && binds(ns, c, i)
        && text_of(source, ns[i]) == Some(name)
}

/// Whether statement `c` has an entry in the outline: it defines a name, or it
/// exports something.
pub open spec fn has_entry(source: Seq<char>, tree: TreeView, c: int) -> bool {
    if tree.nodes[c].kind == "export_statement"@ {
        exported(source, tree).len() > 0
    } else {
        exists|i: int, name: Seq<char>| #[trigger] declares_name(source, tree.nodes, c, i, name)
    }
}

/// The number of the statements before place `n` that have an entry.
pub open spec fn entries_before(source: Seq<char>, tree: TreeView, cs: Seq<int>, n: int) -> nat
    decreases n,
{
    if n <= 0 {
        0
    } else {
        entries_before(source, tree, cs, n - 1) + (if has_entry(source, tree, cs[n - 1]) {
            1nat
        } else {
            0nat
        })
    }
}

proof fn lemma_kinds()
    ensures
        "var_declaration"@ != "assignment_statement"@,
        "var_declaration"@ != "parameter_list"@,
        "var_declaration"@ != "variadic_parameter"@,
        "var_declaration"@ != "for_in_clause"@,
        "assignment_statement"@ != "parameter_list"@,
        "assignment_statement"@ != "variadic_parameter"@,
        "assignment_statement"@ != "for_in_clause"@,
        "export_statement"@ != "var_declaration"@,
        "export_statement"@ != "assignment_statement"@,
        "func_literal"@ != "import_expression"@,
{
    reveal_strlit("var_declaration");
    reveal_strlit("assignment_statement");
    reveal_strlit("parameter_list");
    reveal_strlit("variadic_parameter");
    reveal_strlit("for_in_clause");
    reveal_strlit("export_statement");
    reveal_strlit("func_literal");
    reveal_strlit("import_expression");
    assert("var_declaration"@.len() == 15 && "assignment_statement"@.len() == 20
        && "parameter_list"@.len() == 14 && "variadic_parameter"@.len() == 18
        && "for_in_clause"@.len() == 13 && "export_statement"@.len() == 16
        && "func_literal"@.len() == 12 && "import_expression"@.len() == 17);
}

proof fn lemma_has_entry(source: Seq<char>, tree: TreeView, c: int)
    ensures
        entry_at(source, tree, c) is Some <==> has_entry(source, tree, c),
        forall|i: int, name: Seq<char>| #[trigger]
            declares_name(source, tree.nodes, c, i, name) ==> definition_at(tree.nodes, c) == Some(
                (i, bound_value(tree.nodes, c)),
            ),
{
    let ns = tree.nodes;
    lemma_kinds();
    assert forall|i: int, name: Seq<char>| #[trigger]
        declares_name(source, ns, c, i, name) implies definition_at(ns, c) == Some(
        (i, bound_value(ns, c)),
    ) by {}
    if ns[c].kind != "export_statement"@ && entry_at(source, tree, c) is Some {
        let (i, v) = definition_at(ns, c)->0;
        assert(declares_name(source, ns, c, i, text_of(source, ns[i])->0));
    }
}

proof fn lemma_entries(source: Seq<char>, tree: TreeView, cs: Seq<int>, n: int)
    requires
        0 <= n <= cs.len(),
    ensures
        entries_of(source, tree, cs.take(n)).len() == entries_before(source, tree, cs, n),
        forall|i: int|
            0 <= i < n ==> (entry_at(source, tree, #[trigger] cs[i]) matches Some(e)
                ==> entries_before(source, tree, cs, i) < entries_before(source, tree, cs, n)
                && entries_of(source, tree, cs.take(n))[entries_before(source, tree, cs, i) as int]
                == e),
    decreases n,
{
    if n > 0 {
        lemma_entries(source, tree, cs, n - 1);
        lemma_has_entry(source, tree, cs[n - 1]);
        assert(cs.take(n).drop_last() =~= cs.take(n - 1));
        assert(cs.take(n).last() == cs[n - 1]);
    } else {
        assert(cs.take(0).len() == 0);
    }
}

/// The outline has one entry for each top-level statement that defines a name or
/// exports something, in their order, and no others; none at all is no outline.
pub proof fn law_outline_entries(source: Seq<char>, tree: TreeView)
    requires
        tree.nodes.len() > 0,
    ensures
        ({
            let cs = kids(tree.nodes, 0);
            match outlined(source, tree) {
                Some(es) => es.len() > 0 && es.len() == entries_before(
                    source,
                    tree,
                    cs,
                    cs.len() as int,
                ),
                None => entries_before(source, tree, cs, cs.len() as int) == 0,
            }
        }),
{
    let cs = kids(tree.nodes, 0);
    lemma_entries(source, tree, cs, cs.len() as int);
    assert(cs.take(cs.len() as int) =~= cs);
}

/// A top-level definition is shown with its name, its whole extent and that of
/// the name, as a function with its parameters, as a module with its path, or as
/// a variable; below it the methods in its value.
pub proof fn law_outline_of_definition(
    source: Seq<char>,
    tree: TreeView,
    k: int,
    i: int,
    name: Seq<char>,
)
    requires
        tree.nodes.len() > 0,
        0 <= k < kids(tree.nodes, 0).len(),
        declares_name(source, tree.nodes, kids(tree.nodes, 0)[k], i, name),
    ensures
        ({
            let ns = tree.nodes;
            let cs = kids(ns, 0);
            let c = cs[k];
            let at = entries_before(source, tree, cs, k) as int;
            outlined(source, tree) matches Some(es) && 0 <= at < es.len() && {
                let e = es[at];
                &&& e.name == name
                &&& e.range == range_of(source, ns[c])
                &&& e.selection_range == range_of(source, ns[i])
                &&& match bound_value(ns, c) {
                    Some(v) => {
                        &&& ns[v].kind == "func_literal"@ ==> e.kind == LspKind::Function
                            && e.detail == Some(signature_of(source, ns, v))
                        &&& ns[v].kind == "import_expression"@ ==> e.kind == LspKind::Module && (
                        match kind_child(ns, v, "string_literal"@) {
                            Some(s) => text_of(source, ns[s]) matches Some(t) ==> e.detail == Some(
                                "import \""@ + unquoted(t) + "\""@,
                            ),
                            None => e.detail is None,
                        })
                        &&& ns[v].kind != "func_literal"@ && ns[v].kind != "import_expression"@
                            ==> e.kind == LspKind::Variable && e.detail is None
                        &&& match e.children {
                            Some(ms) => ms.len() > 0 && ms == methods_from(
                                source,
                                ns,
                                v,
                                subtree_end(ns, v),
                            ),
                            None => methods_from(source, ns, v, subtree_end(ns, v)).len() == 0,
                        }
                    },
                    None => e.kind == LspKind::Variable && e.detail is None && e.children is None,
                }
            }
        }),
{
    let cs = kids(tree.nodes, 0);
    lemma_kinds();
    lemma_has_entry(source, tree, cs[k]);
    lemma_entries(source, tree, cs, cs.len() as int);
    assert(cs.take(cs.len() as int) =~= cs);
}

/// What is exported is shown as one entry at the place of the export: the number
/// of members, and below it each member with its name, its parameters and the
/// place of its key.
pub proof fn law_outline_of_export(source: Seq<char>, tree: TreeView, k: int)
    requires
        tree.nodes.len() > 0,
        0 <= k < kids(tree.nodes, 0).len(),
        tree.nodes[kids(tree.nodes, 0)[k]].kind == "export_statement"@,
        exported(source, tree).len() > 0,
    ensures
        ({
            let cs = kids(tree.nodes, 0);
            let at = entries_before(source, tree, cs, k) as int;
            let ms = exported(source, tree);
            outlined(source, tree) matches Some(es) && 0 <= at < es.len() && {
                let e = es[at];
                &&& e.name == "export"@
                &&& e.kind == LspKind::Namespace
                &&& e.detail == Some(
                    decimal(ms.len()) + (if ms.len() == 1 {
                        " member"@
                    } else {
                        " members"@
                    }),
                )
                &&& e.range == e.selection_range
                &&& e.range.start == ms[0].key_range.start
                &&& e.range.end == ms[ms.len() - 1].key_range.end
                &&& e.children matches Some(xs) && xs.len() == ms.len() && forall|j: int|
                    0 <= j < ms.len() ==> {
                        let x = #[trigger] xs[j];
                        &&& x.name == ms[j].name
                        &&& x.detail == ms[j].signature
                        &&& x.kind == (if ms[j].kind == ItemKind::Function {
                            LspKind::Function
                        } else {
                            LspKind::Field
                        })
                        &&& x.range == ms[j].key_range
                        &&& x.selection_range == ms[j].key_range
                        &&& x.children is None
                    }
            }
        }),
{
    let cs = kids(tree.nodes, 0);
    lemma_has_entry(source, tree, cs[k]);
    lemma_entries(source, tree, cs, cs.len() as int);
    assert(cs.take(cs.len() as int) =~= cs);
}

/// The number that a text of decimal digits stands for.
pub open spec fn number(s: Seq<char>) -> int
    decreases s.len(),
{
    if s.len() == 0 {
        0
    } else {
        number(s.drop_last()) * 10 + (s.last() as int - '0' as int)
    }
}

/// A number is written in decimal digits, without a zero before them, and
/// stands for itself.
pub proof fn law_decimal(n: nat)
    ensures
        number(decimal(n)) == n,
        forall|i: int| 0 <= i < decimal(n).len() ==> '0' <= #[trigger] decimal(n)[i] <= '9',
        decimal(n).len() > 0,
        n > 0 ==> decimal(n)[0] != '0',
    decreases n,
{
    reveal_with_fuel(number, 2);
    if n >= 10 {
        law_decimal(n / 10);
        let front = decimal(n / 10);
        assert(front.push(digits()[(n % 10) as int]).drop_last() =~= front);
    } else {
        assert(seq![digits()[n as int]].drop_last() =~= seq![]);
    }
}

proof fn lemma_end(ns: Seq<NodeView>, i: int, j: int)
    requires
        0 <= i < j <= ns.len(),
        forall|k: int| i < k < j ==> (#[trigger] ns[k]).depth > ns[i].depth,
    ensures
        j <= end_from(ns, i, j) <= ns.len(),
        forall|k: int| j <= k < end_from(ns, i, j) ==> (#[trigger] ns[k]).depth > ns[i].depth,
        end_from(ns, i, j) < ns.len() ==> ns[end_from(ns, i, j)].depth <= ns[i].depth,
    decreases ns.len() - j,
{
    if j < ns.len() && ns[j].depth > ns[i].depth {
        lemma_end(ns, i, j + 1);
    }
}

/// What lies below a node ends where the first node stands that is not deeper.
pub proof fn law_subtree(ns: Seq<NodeView>, i: int, k: int)
    requires
        0 <= i < ns.len(),
    ensures
        i < subtree_end(ns, i) <= ns.len(),
        within(ns, i, k) <==> i <= k < subtree_end(ns, i),
{
    lemma_end(ns, i, i + 1);
    let end = subtree_end(ns, i);
    if i <= k < end {
        assert forall|j: int| i < j <= k implies (#[trigger] ns[j]).depth > ns[i].depth by {}
    }
    if within(ns, i, k) && k >= end {
        assert(ns[end].depth > ns[i].depth);
    }
}

/// Whether node `j` is a method: an entry of a map with the name `name` at node
/// `k` as its key and the function `v` as its value.
pub open spec fn is_method(
    source: Seq<char>,
    ns: Seq<NodeView>,
    j: int,
    name: Seq<char>,
    k: int,
    v: int,
) -> bool {
    &&& ns[j].kind == "map_entry"@
    &&& field_child(ns, j, "key"@) == Some(k)
    &&& ns[k].kind == "identifier"@
    &&& text_of(source, ns[k]) == Some(name)
    &&& field_child(ns, j, "value"@) == Some(v)
    &&& ns[v].kind == "func_literal"@
}

/// Whether `e` is the entry for the method at node `j`: with its parameters, its
/// extent and that of its name, and below it the methods inside its function.
pub open spec fn shows_method(
    source: Seq<char>,
    ns: Seq<NodeView>,
    j: int,
    name: Seq<char>,
    k: int,
    v: int,
    e: SymbolTree,
) -> bool {
    &&& is_method(source, ns, j, name, k, v)
    &&& e.name == name
    &&& e.detail == Some(signature_of(source, ns, v))
    &&& e.kind == LspKind::Method
    &&& e.range == range_of(source, ns[j])
    &&& e.selection_range == range_of(source, ns[k])
    &&& match e.children {
        Some(ms) => ms.len() > 0 && ms == methods_from(source, ns, v, subtree_end(ns, v)),
        None => methods_from(source, ns, v, subtree_end(ns, v)).len() == 0,
    }
}

/// Whether node `j` lies inside a method that begins at `from` or behind it.
pub open spec fn inside_method(source: Seq<char>, ns: Seq<NodeView>, from: int, j: int) -> bool {
    exists|h: int, name: Seq<char>, k: int, v: int|
        from <= h < j && #[trigger] is_method(source, ns, h, name, k, v) && within(ns, h, j)
}

proof fn lemma_method(source: Seq<char>, ns: Seq<NodeView>, j: int)
    ensures
        forall|name: Seq<char>, k: int, v: int| #[trigger]
            is_method(source, ns, j, name, k, v) <==> method_at(source, ns, j) == Some((name, k, v)),
{
}

/// Every method among the nodes that lies inside no other is shown.
pub proof fn law_every_method_shown(
    source: Seq<char>,
    ns: Seq<NodeView>,
    from: int,
    end: int,
    j: int,
    name: Seq<char>,
    k: int,
    v: int,
)
    requires
        0 <= from <= j < end <= ns.len(),
        is_method(source, ns, j, name, k, v),
        !inside_method(source, ns, from, j),
    ensures
        exists|i: int|
            0 <= i < methods_from(source, ns, from, end).len() && shows_method(
                source,
                ns,
                j,
                name,
                k,
                v,
                #[trigger] methods_from(source, ns, from, end)[i],
            ),
    decreases j - from,
{
    let all = methods_from(source, ns, from, end);
    lemma_method(source, ns, from);
    law_field_of_parent(ns, from, "value"@);
    law_subtree(ns, from, j);
    if from == j {
        assert(shows_method(source, ns, j, name, k, v, all[0]));
    } else {
        match method_at(source, ns, from) {
            Some((n0, k0, v0)) => {
                assert(is_method(source, ns, from, n0, k0, v0));
                assert(!within(ns, from, j));
                let next = subtree_end(ns, from);
                assert(!inside_method(source, ns, next, j));
                law_every_method_shown(source, ns, next, end, j, name, k, v);
                let rest = methods_from(source, ns, next, end);
                let i = choose|i: int|
                    0 <= i < rest.len() && shows_method(
                        source,
                        ns,
                        j,
                        name,
                        k,
                        v,
                        #[trigger] rest[i],
                    );
                assert(all[i + 1] == rest[i]);
            },
            None => {
                assert(!inside_method(source, ns, from + 1, j));
                law_every_method_shown(source, ns, from + 1, end, j, name, k, v);
            },
        }
    }
}

/// Nothing but methods is shown below a value, each of them outside the others.
pub proof fn law_only_methods_shown(
    source: Seq<char>,
    ns: Seq<NodeView>,
    from: int,
    end: int,
    i: int,
)
    requires
        0 <= from,
        end <= ns.len(),
        0 <= i < methods_from(source, ns, from, end).len(),
    ensures
        exists|j: int, name: Seq<char>, k: int, v: int|
            from <= j < end && #[trigger] shows_method(
                source,
                ns,
                j,
                name,
                k,
                v,
                methods_from(source, ns, from, end)[i],
            ),
    decreases ns.len() - from,
{
    let all = methods_from(source, ns, from, end);
    lemma_method(source, ns, from);
    match method_at(source, ns, from) {
        Some((name, k, v)) => {
            if i == 0 {
                assert(shows_method(source, ns, from, name, k, v, all[0]));
            } else {
                let next = subtree_end(ns, from);
                let rest = methods_from(source, ns, next, end);
                law_only_methods_shown(source, ns, next, end, i - 1);
                assert(all[i] == rest[i - 1]);
            }
        },
        None => {
            law_only_methods_shown(source, ns, from + 1, end, i);
        },
    }
}

} // verus!
