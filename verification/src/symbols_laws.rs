//! What is known of the names of a file, said of the nodes of its tree.

use vstd::prelude::*;
use vstd::string::*;

use crate::document::analysed;
use crate::exports::export_entries;
use crate::exports::unquoted;
use crate::places::range_of;
use crate::scope::encloses;
use crate::scope::innermost;
use crate::scope::law_innermost_smallest;
use crate::scope::law_scopes_numbered;
use crate::scope::lemma_scope_count;
use crate::scope::lemma_scope_node;
use crate::scope::scope_count;
use crate::scope::scope_node_before;
use crate::scope::scopes_of;
use crate::scope::scopes_upto;
use crate::scope::Scope;
use crate::symbols::defining;
use crate::symbols::definition_at;
use crate::symbols::defs_at;
use crate::symbols::defs_upto;
use crate::symbols::import_at;
use crate::symbols::import_named;
use crate::symbols::imports_upto;
use crate::symbols::law_imports_distinct;
use crate::symbols::law_last_import_wins;
use crate::symbols::lemma_import_index;
use crate::symbols::params_in;
use crate::symbols::ref_of;
use crate::symbols::refers;
use crate::symbols::refs_upto;
use crate::symbols::scope_id_at;
use crate::symbols::symbol_of;
use crate::symbols::ImportView;
use crate::symbols::RefView;
use crate::symbols::SymbolKind;
use crate::symbols::SymbolView;
use crate::syntax::field_child;
use crate::syntax::kids;
use crate::syntax::kind_child;
use crate::syntax::law_children_and_parents;
use crate::syntax::parent_of;
use crate::syntax::text_or_empty;
use crate::syntax::NodeView;
use crate::syntax::TreeView;
use crate::syntax_laws::law_field_of_parent;
use crate::syntax_laws::law_parent_lists_child;
use crate::syntax_laws::lemma_kid_bound;
use crate::syntax_laws::lemma_upto;
use crate::syntax_laws::within;

verus! {

/// Whether node `p` defines the name at node `i`: a declaration, an assignment
/// with `:=` to an identifier, a parameter list that the identifier stands in,
/// or the head of a loop over a range.
pub open spec fn binds(ns: Seq<NodeView>, p: int, i: int) -> bool {
    ||| ns[p].kind == "var_declaration"@ && field_child(ns, p, "name"@) == Some(i)
    ||| ns[p].kind == "assignment_statement"@ && field_child(ns, p, "left"@) == Some(i)
        && ns[i].kind == "identifier"@ && (field_child(ns, p, "operator"@) matches Some(o)
        && ns[o].kind == ":="@)
    ||| (ns[p].kind == "parameter_list"@ || ns[p].kind == "variadic_parameter"@) && parent_of(ns, i)
        == Some(p) && ns[i].kind == "identifier"@
    ||| ns[p].kind == "for_in_clause"@ && (field_child(ns, p, "key"@) == Some(i) || field_child(
        ns,
        p,
        "value"@,
    ) == Some(i))
}

/// The value that node `p` gives to what it defines.
pub open spec fn bound_value(ns: Seq<NodeView>, p: int) -> Option<int> {
    if ns[p].kind == "var_declaration"@ {
        field_child(ns, p, "value"@)
    } else {
        field_child(ns, p, "right"@)
    }
}

/// What a name is that node `p` defines.
pub open spec fn kind_by(ns: Seq<NodeView>, p: int) -> SymbolKind {
    if ns[p].kind == "parameter_list"@ || ns[p].kind == "variadic_parameter"@ {
        SymbolKind::Param
    } else if ns[p].kind == "for_in_clause"@ {
        SymbolKind::ForVar
    } else {
        match bound_value(ns, p) {
            Some(v) => if ns[v].kind == "func_literal"@ {
                SymbolKind::Func
            } else if ns[v].kind == "import_expression"@ {
                SymbolKind::Import
            } else {
                SymbolKind::Var
            },
            None => SymbolKind::Var,
        }
    }
}

/// Where the scope of a name begins that node `p` defines at node `i`: where
/// the name does, but for a loop where its block does.
pub open spec fn scope_byte(ns: Seq<NodeView>, p: int, i: int) -> usize {
    if ns[p].kind != "for_in_clause"@ {
        ns[i].start_byte
    } else {
        match parent_of(ns, p) {
            Some(l) => match kind_child(ns, l, "block"@) {
                Some(b) => ns[b].start_byte,
                None => ns[p].start_byte,
            },
            None => ns[p].start_byte,
        }
    }
}

/// Whether `d` is the definition that node `p` makes of the name at node `i`.
pub open spec fn is_definition(
    source: Seq<char>,
    ns: Seq<NodeView>,
    p: int,
    i: int,
    d: SymbolView,
) -> bool {
    &&& d.name == text_or_empty(source, ns[i])
    &&& d.kind == kind_by(ns, p)
    &&& d.range == range_of(source, ns[i])
    &&& d.byte_range.start == ns[i].start_byte
    &&& d.byte_range.end == ns[i].end_byte
    &&& match innermost(scopes_of(ns), scope_byte(ns, p, i)) {
        Some(s) => d.scope_id == s,
        None => d.scope_id == 0,
    }
}

proof fn lemma_kind_names()
    ensures
        "var_declaration"@ != "assignment_statement"@,
        "var_declaration"@ != "parameter_list"@,
        "var_declaration"@ != "variadic_parameter"@,
        "var_declaration"@ != "for_in_clause"@,
        "assignment_statement"@ != "parameter_list"@,
        "assignment_statement"@ != "variadic_parameter"@,
        "assignment_statement"@ != "for_in_clause"@,
        "parameter_list"@ != "for_in_clause"@,
        "variadic_parameter"@ != "for_in_clause"@,
        "map_entry"@ != "selector_expression"@,
        "func_literal"@ != "import_expression"@,
{
    reveal_strlit("var_declaration");
    reveal_strlit("assignment_statement");
    reveal_strlit("parameter_list");
    reveal_strlit("variadic_parameter");
    reveal_strlit("for_in_clause");
    reveal_strlit("map_entry");
    reveal_strlit("selector_expression");
    reveal_strlit("func_literal");
    reveal_strlit("import_expression");
    assert("var_declaration"@.len() == 15 && "assignment_statement"@.len() == 20
        && "parameter_list"@.len() == 14 && "variadic_parameter"@.len() == 18
        && "for_in_clause"@.len() == 13 && "map_entry"@.len() == 9
        && "selector_expression"@.len() == 19 && "func_literal"@.len() == 12
        && "import_expression"@.len() == 17);
}

proof fn lemma_scope_id_is(ns: Seq<NodeView>, byte: usize)
    requires
        ns.len() <= usize::MAX,
    ensures
        match innermost(scopes_of(ns), byte) {
            Some(s) => scope_id_at(scopes_of(ns), byte) == s,
            None => scope_id_at(scopes_of(ns), byte) == 0,
        },
{
    law_innermost_smallest(scopes_of(ns), byte);
    law_scopes_numbered(ns, ns.len() as int);
}

proof fn lemma_param_in(
    source: Seq<char>,
    ns: Seq<NodeView>,
    scopes: Seq<Scope>,
    cs: Seq<int>,
    k: int,
)
    requires
        0 <= k < cs.len(),
        ns[cs[k]].kind == "identifier"@,
    ensures
        params_in(source, ns, scopes, cs).contains(
            symbol_of(
                source,
                ns,
                cs[k],
                SymbolKind::Param,
                scope_id_at(scopes, ns[cs[k]].start_byte),
            ),
        ),
    decreases cs.len(),
{
    let all = params_in(source, ns, scopes, cs);
    if k == cs.len() - 1 {
        assert(all[all.len() - 1] == all.last());
    } else {
        lemma_param_in(source, ns, scopes, cs.drop_last(), k);
        let rest = params_in(source, ns, scopes, cs.drop_last());
        let c = symbol_of(
            source,
            ns,
            cs[k],
            SymbolKind::Param,
            scope_id_at(scopes, ns[cs[k]].start_byte),
        );
        let j = choose|j: int| 0 <= j < rest.len() && rest[j] == c;
        assert(all[j] == c);
    }
}

proof fn lemma_param_of(
    source: Seq<char>,
    ns: Seq<NodeView>,
    scopes: Seq<Scope>,
    cs: Seq<int>,
    j: int,
) -> (k: int)
    requires
        0 <= j < params_in(source, ns, scopes, cs).len(),
    ensures
        0 <= k < cs.len(),
        ns[cs[k]].kind == "identifier"@,
        params_in(source, ns, scopes, cs)[j] == symbol_of(
            source,
            ns,
            cs[k],
            SymbolKind::Param,
            scope_id_at(scopes, ns[cs[k]].start_byte),
        ),
    decreases cs.len(),
{
    let rest = params_in(source, ns, scopes, cs.drop_last());
    if j < rest.len() {
        lemma_param_of(source, ns, scopes, cs.drop_last(), j)
    } else {
        cs.len() - 1
    }
}

/// Whatever a node of a file defines is among the file's definitions, with its
/// name, what it is, its place and its scope.
pub proof fn law_definitions_complete(
    uri: Seq<char>,
    source: Seq<char>,
    tree: TreeView,
    p: int,
    i: int,
)
    requires
        tree.nodes.len() <= usize::MAX,
        0 <= p < tree.nodes.len(),
        0 <= i < tree.nodes.len(),
        binds(tree.nodes, p, i),
    ensures
        exists|k: int|
            0 <= k < analysed(uri, source, tree).defs.len() && is_definition(
                source,
                tree.nodes,
                p,
                i,
                #[trigger] analysed(uri, source, tree).defs[k],
            ),
{
    let ns = tree.nodes;
    let scopes = scopes_of(ns);
    let all = analysed(uri, source, tree).defs;
    let k = lemma_def_place(source, tree, p, i);
    lemma_defs_grow(source, ns, scopes, p + 1, ns.len() as int);
    assert(all[k] == defs_upto(source, ns, scopes, p + 1)[k]);
}

proof fn lemma_def_from_node(
    source: Seq<char>,
    ns: Seq<NodeView>,
    n: int,
    k: int,
)
    requires
        ns.len() <= usize::MAX,
        n <= ns.len(),
        0 <= k < defs_upto(source, ns, scopes_of(ns), n).len(),
    ensures
        exists|p: int, i: int|
            0 <= p < n && 0 <= i < ns.len() && #[trigger] binds(ns, p, i) && is_definition(
                source,
                ns,
                p,
                i,
                defs_upto(source, ns, scopes_of(ns), n)[k],
            ),
    decreases n,
{
    let scopes = scopes_of(ns);
    if n > 0 {
        let rest = defs_upto(source, ns, scopes, n - 1);
        let p = n - 1;
        let here = defs_at(source, ns, scopes, p);
        if k < rest.len() {
            lemma_def_from_node(source, ns, n - 1, k);
            let (q, i) = choose|q: int, i: int|
                0 <= q < n - 1 && 0 <= i < ns.len() && #[trigger] binds(ns, q, i) && is_definition(
                    source,
                    ns,
                    q,
                    i,
                    rest[k],
                );
            assert(binds(ns, q, i));
        } else {
            let d = here[k - rest.len()];
            lemma_kind_names();
            if ns[p].kind == "var_declaration"@ || ns[p].kind == "assignment_statement"@ {
                let (i, v) = definition_at(ns, p)->0;
                law_field_of_parent(ns, p, "name"@);
                law_field_of_parent(ns, p, "left"@);
                lemma_scope_id_is(ns, ns[i].start_byte);
                assert(binds(ns, p, i));
                assert(is_definition(source, ns, p, i, d));
            } else if ns[p].kind == "for_in_clause"@ {
                law_field_of_parent(ns, p, "key"@);
                law_field_of_parent(ns, p, "value"@);
                let key = field_child(ns, p, "key"@);
                let i = if key is Some && k == rest.len() {
                    key->0
                } else {
                    field_child(ns, p, "value"@)->0
                };
                lemma_scope_id_is(ns, scope_byte(ns, p, i));
                assert(binds(ns, p, i));
                assert(is_definition(source, ns, p, i, d));
            } else {
                let c = lemma_param_of(source, ns, scopes, kids(ns, p), k - rest.len());
                law_children_and_parents(ns, p, c);
                let i = kids(ns, p)[c];
                lemma_upto(ns, i, i - 1);
                lemma_kid_bound(ns, p, p + 1, c);
                lemma_scope_id_is(ns, ns[i].start_byte);
                assert(binds(ns, p, i));
                assert(is_definition(source, ns, p, i, d));
            }
        }
    }
}

/// Every definition of a file is made by one of its nodes.
pub proof fn law_definitions_sound(uri: Seq<char>, source: Seq<char>, tree: TreeView, k: int)
    requires
        tree.nodes.len() <= usize::MAX,
        0 <= k < analysed(uri, source, tree).defs.len(),
    ensures
        exists|p: int, i: int|
            0 <= p < tree.nodes.len() && 0 <= i < tree.nodes.len() && #[trigger] binds(
                tree.nodes,
                p,
                i,
            ) && is_definition(source, tree.nodes, p, i, analysed(uri, source, tree).defs[k]),
{
    lemma_def_from_node(source, tree.nodes, tree.nodes.len() as int, k);
}

/// Whether `r` is the use of the name at node `i`.
pub open spec fn is_use(source: Seq<char>, ns: Seq<NodeView>, i: int, r: RefView) -> bool {
    &&& r.name == text_or_empty(source, ns[i])
    &&& r.range == range_of(source, ns[i])
    &&& r.byte_range.start == ns[i].start_byte
    &&& r.byte_range.end == ns[i].end_byte
}

proof fn lemma_ref_in(source: Seq<char>, ns: Seq<NodeView>, n: int, i: int)
    requires
        0 <= i < n,
        refers(ns, i),
    ensures
        refs_upto(source, ns, n).contains(ref_of(source, ns, i)),
    decreases n,
{
    let all = refs_upto(source, ns, n);
    if i == n - 1 {
        assert(all[all.len() - 1] == ref_of(source, ns, i));
    } else {
        lemma_ref_in(source, ns, n - 1, i);
        let rest = refs_upto(source, ns, n - 1);
        let j = choose|j: int| 0 <= j < rest.len() && rest[j] == ref_of(source, ns, i);
        assert(all[j] == ref_of(source, ns, i));
    }
}

/// An identifier stands where a name is defined if and only if its parent
/// defines it.
pub proof fn lemma_defining(ns: Seq<NodeView>, i: int)
    requires
        0 <= i < ns.len(),
        ns[i].kind == "identifier"@,
    ensures
        defining(ns, i) <==> exists|p: int| 0 <= p < ns.len() && #[trigger] binds(ns, p, i),
{
    lemma_kind_names();
    lemma_upto(ns, i, i - 1);
    if defining(ns, i) {
        assert(binds(ns, parent_of(ns, i)->0, i));
    }
    if exists|p: int| 0 <= p < ns.len() && #[trigger] binds(ns, p, i) {
        let p = choose|p: int| 0 <= p < ns.len() && #[trigger] binds(ns, p, i);
        law_field_of_parent(ns, p, "name"@);
        law_field_of_parent(ns, p, "left"@);
        law_field_of_parent(ns, p, "key"@);
        law_field_of_parent(ns, p, "value"@);
        assert(parent_of(ns, i) == Some(p));
    }
}

/// Every identifier of a file is the name of one of its definitions or one of
/// its uses: where a node defines it the one, else the other.
pub proof fn law_identifiers_accounted(uri: Seq<char>, source: Seq<char>, tree: TreeView, i: int)
    requires
        tree.nodes.len() <= usize::MAX,
        0 <= i < tree.nodes.len(),
        tree.nodes[i].kind == "identifier"@,
    ensures
        (exists|p: int| 0 <= p < tree.nodes.len() && #[trigger] binds(tree.nodes, p, i)) ==> exists|k: int|
            0 <= k < analysed(uri, source, tree).defs.len() && (#[trigger] analysed(
                uri,
                source,
                tree,
            ).defs[k]).byte_range.start == tree.nodes[i].start_byte && analysed(
                uri,
                source,
                tree,
            ).defs[k].name == text_or_empty(source, tree.nodes[i]),
        !(exists|p: int| 0 <= p < tree.nodes.len() && #[trigger] binds(tree.nodes, p, i)) ==> exists|k: int|
            0 <= k < analysed(uri, source, tree).refs.len() && is_use(
                source,
                tree.nodes,
                i,
                #[trigger] analysed(uri, source, tree).refs[k],
            ) && analysed(uri, source, tree).refs[k] == ref_of(source, tree.nodes, i),
{
    let ns = tree.nodes;
    let f = analysed(uri, source, tree);
    lemma_defining(ns, i);
    if exists|p: int| 0 <= p < ns.len() && #[trigger] binds(ns, p, i) {
        let p = choose|p: int| 0 <= p < ns.len() && #[trigger] binds(ns, p, i);
        law_definitions_complete(uri, source, tree, p, i);
        let k = choose|k: int|
            0 <= k < f.defs.len() && is_definition(source, ns, p, i, #[trigger] f.defs[k]);
        assert(f.defs[k].byte_range.start == ns[i].start_byte);
    } else {
        lemma_ref_in(source, ns, ns.len() as int, i);
        let k = choose|k: int| 0 <= k < f.refs.len() && f.refs[k] == ref_of(source, ns, i);
        assert(is_use(source, ns, i, f.refs[k]));
    }
}

pub proof fn lemma_ref_from_node(source: Seq<char>, ns: Seq<NodeView>, n: int, k: int) -> (i: int)
    requires
        0 <= k < refs_upto(source, ns, n).len(),
    ensures
        0 <= i < n,
        refers(ns, i),
        refs_upto(source, ns, n)[k] == ref_of(source, ns, i),
    decreases n,
{
    if refers(ns, n - 1) && k == refs_upto(source, ns, n).len() - 1 {
        n - 1
    } else {
        lemma_ref_from_node(source, ns, n - 1, k)
    }
}

/// Every use of a file is an identifier of it that no node defines.
pub proof fn law_uses_sound(uri: Seq<char>, source: Seq<char>, tree: TreeView, k: int)
    requires
        0 <= k < analysed(uri, source, tree).refs.len(),
    ensures
        exists|i: int|
            0 <= i < tree.nodes.len() && is_use(
                source,
                tree.nodes,
                i,
                analysed(uri, source, tree).refs[k],
            ) && (#[trigger] tree.nodes[i]).kind == "identifier"@ && !(exists|p: int|
                0 <= p < tree.nodes.len() && #[trigger] binds(tree.nodes, p, i)),
{
    let ns = tree.nodes;
    let i = lemma_ref_from_node(source, ns, ns.len() as int, k);
    lemma_defining(ns, i);
    assert(is_use(source, ns, i, analysed(uri, source, tree).refs[k]));
    assert(ns[i].kind == "identifier"@);
}

/// An identifier stands for a variable wherever it stands, but as the field of
/// a selector or the key of a map; the key of an export `name: name` does.
pub proof fn law_where_names_are_variables(source: Seq<char>, ns: Seq<NodeView>, i: int)
    ensures
        parent_of(ns, i) is None ==> ref_of(source, ns, i).variable,
        parent_of(ns, i) matches Some(p) ==> {
            &&& ns[p].kind != "selector_expression"@ && ns[p].kind != "map_entry"@ ==> ref_of(
                source,
                ns,
                i,
            ).variable
            &&& ns[p].kind == "selector_expression"@ ==> (ref_of(source, ns, i).variable
                <==> field_child(ns, p, "field"@) != Some(i))
            &&& ns[p].kind == "map_entry"@ && field_child(ns, p, "key"@) != Some(i) ==> ref_of(
                source,
                ns,
                i,
            ).variable
            &&& ns[p].kind == "map_entry"@ && field_child(ns, p, "key"@) == Some(i)
                && !export_entries(ns).contains(p) ==> !ref_of(source, ns, i).variable
        },
{
    lemma_kind_names();
}

/// Whether node `p` binds `name` to the import of `module`.
pub open spec fn imports_as(
    source: Seq<char>,
    ns: Seq<NodeView>,
    p: int,
    name: Seq<char>,
    module: Seq<char>,
) -> bool {
    &&& ns[p].kind == "var_declaration"@ || ns[p].kind == "assignment_statement"@
    &&& exists|i: int|
        0 <= i < ns.len() && #[trigger] binds(ns, p, i) && text_or_empty(source, ns[i]) == name
    &&& bound_value(ns, p) matches Some(v) && ns[v].kind == "import_expression"@ && (kind_child(
        ns,
        v,
        "string_literal"@,
    ) matches Some(s) && unquoted(text_or_empty(source, ns[s])) == module)
}

proof fn lemma_import_at(source: Seq<char>, ns: Seq<NodeView>, p: int)
    requires
        0 <= p < ns.len(),
    ensures
        forall|name: Seq<char>, module: Seq<char>|
            #[trigger] imports_as(source, ns, p, name, module) <==> import_at(source, ns, p) == Some(
                (ImportView { module, var_name: name }),
            ),
{
    lemma_kind_names();
    law_field_of_parent(ns, p, "name"@);
    law_field_of_parent(ns, p, "left"@);
    assert forall|name: Seq<char>, module: Seq<char>|
        #[trigger] imports_as(source, ns, p, name, module) <==> import_at(source, ns, p) == Some(
            (ImportView { module, var_name: name }),
        ) by {
        if imports_as(source, ns, p, name, module) {
            let i = choose|i: int|
                0 <= i < ns.len() && #[trigger] binds(ns, p, i) && text_or_empty(source, ns[i])
                    == name;
            assert(definition_at(ns, p) == Some((i, bound_value(ns, p))));
        }
        if import_at(source, ns, p) == Some((ImportView { module, var_name: name })) {
            let (i, v) = definition_at(ns, p)->0;
            assert(binds(ns, p, i));
        }
    }
}

proof fn lemma_imports_named(source: Seq<char>, ns: Seq<NodeView>, n: int, name: Seq<char>)
    requires
        0 <= n <= ns.len(),
    ensures
        ({
            let found = import_named(imports_upto(source, ns, seq![], n), name);
            &&& found is None ==> forall|p: int, m: Seq<char>|
                0 <= p < n ==> !(#[trigger] imports_as(source, ns, p, name, m))
            &&& found matches Some(info) ==> info.var_name == name && exists|p: int|
                0 <= p < n && #[trigger] imports_as(source, ns, p, name, info.module) && (forall|q: int, m: Seq<char>|
                    p < q < n ==> !(#[trigger] imports_as(source, ns, q, name, m)))
        }),
    decreases n,
{
    let all = imports_upto(source, ns, seq![], n);
    lemma_import_index(all, name);
    if n > 0 {
        lemma_imports_named(source, ns, n - 1, name);
        lemma_import_at(source, ns, n - 1);
        let rest = imports_upto(source, ns, seq![], n - 1);
        let before = import_named(rest, name);
        law_imports_distinct(source, ns, n - 1);
        match import_at(source, ns, n - 1) {
            Some(info) => {
                law_last_import_wins(rest, info, name);
                assert(imports_as(source, ns, n - 1, info.var_name, info.module));
                if info.var_name == name {
                    assert(import_named(all, name) == Some(info));
                } else if let Some(x) = before {
                    let p = choose|p: int|
                        0 <= p < n - 1 && #[trigger] imports_as(source, ns, p, name, x.module) && (
                        forall|q: int, m: Seq<char>|
                            p < q < n - 1 ==> !(#[trigger] imports_as(source, ns, q, name, m)));
                    assert(imports_as(source, ns, p, name, x.module));
                }
            },
            None => {
                if let Some(x) = before {
                    let p = choose|p: int|
                        0 <= p < n - 1 && #[trigger] imports_as(source, ns, p, name, x.module) && (
                        forall|q: int, m: Seq<char>|
                            p < q < n - 1 ==> !(#[trigger] imports_as(source, ns, q, name, m)));
                    assert(imports_as(source, ns, p, name, x.module));
                }
            },
        }
    }
}

/// A name stands for the module that the file last imports under it, and for
/// none if the file imports none under it.
pub proof fn law_imports_by_name(uri: Seq<char>, source: Seq<char>, tree: TreeView, name: Seq<char>)
    ensures
        ({
            let ns = tree.nodes;
            match import_named(analysed(uri, source, tree).imports, name) {
                Some(info) => info.var_name == name && exists|p: int|
                    0 <= p < ns.len() && #[trigger] imports_as(source, ns, p, name, info.module) && (
                    forall|q: int, m: Seq<char>|
                        p < q < ns.len() ==> !(#[trigger] imports_as(source, ns, q, name, m))),
                None => forall|p: int, m: Seq<char>|
                    0 <= p < ns.len() ==> !(#[trigger] imports_as(source, ns, p, name, m)),
            }
        }),
{
    lemma_imports_named(source, tree.nodes, tree.nodes.len() as int, name);
}

/// Whether a node makes a scope.
pub open spec fn is_scope(n: NodeView) -> bool {
    n.kind == "source_file"@ || n.kind == "block"@ || n.kind == "func_literal"@
}

/// Whether `s` is the scope of node `k`.
pub open spec fn scope_of(ns: Seq<NodeView>, k: int, s: Scope) -> bool {
    0 <= k < ns.len() && is_scope(ns[k]) && s.start_byte == ns[k].start_byte && s.end_byte
        == ns[k].end_byte
}

proof fn lemma_scope_of(ns: Seq<NodeView>, i: int, n: int)
    requires
        0 <= i < n <= ns.len() <= usize::MAX,
        is_scope(ns[i]),
    ensures
        ({
            let all = scopes_upto(ns, n);
            let s = all[scope_count(ns, i) as int];
            &&& 0 <= scope_count(ns, i) < all.len()
            &&& scope_of(ns, i, s)
            &&& match scope_node_before(ns, i, i) {
                Some(k) => s.parent == Some(scope_count(ns, k) as usize),
                None => s.parent is None,
            }
        }),
    decreases n,
{
    lemma_scope_count(ns, n - 1);
    if i < n - 1 {
        lemma_scope_of(ns, i, n - 1);
    }
}

proof fn lemma_no_scope_between(ns: Seq<NodeView>, i: int, k: int)
    ensures
        match scope_node_before(ns, i, k) {
            Some(p) => forall|j: int|
                p < j < k && #[trigger] is_scope(ns[j]) ==> !encloses(ns, j, i),
            None => forall|j: int| 0 <= j < k && #[trigger] is_scope(ns[j]) ==> !encloses(ns, j, i),
        },
    decreases k,
{
    if k > 0 {
        lemma_no_scope_between(ns, i, k - 1);
    }
}

/// Every block, every function and the file itself is a scope, which lies in
/// the scope of the nearest such node around it.
pub proof fn law_every_scope_counts(ns: Seq<NodeView>, i: int)
    requires
        ns.len() <= usize::MAX,
        0 <= i < ns.len(),
        is_scope(ns[i]),
    ensures
        exists|j: int|
            0 <= j < scopes_of(ns).len() && scope_of(ns, i, #[trigger] scopes_of(ns)[j]) && (
            match scopes_of(ns)[j].parent {
                Some(p) => exists|k: int|
                    0 <= k < i && #[trigger] scope_of(ns, k, scopes_of(ns)[p as int]) && within(
                        ns,
                        k,
                        i,
                    ) && (forall|m: int|
                        k < m < i && #[trigger] is_scope(ns[m]) ==> !within(ns, m, i)),
                None => forall|m: int|
                    0 <= m < i && #[trigger] is_scope(ns[m]) ==> !within(ns, m, i),
            }),
{
    let n = ns.len() as int;
    let all = scopes_of(ns);
    lemma_scope_of(ns, i, n);
    lemma_no_scope_between(ns, i, i);
    lemma_scope_node(ns, i, i);
    assert forall|m: int| 0 <= m < i implies encloses(ns, m, i) == #[trigger] within(ns, m, i) by {}
    let j = scope_count(ns, i) as int;
    assert(scope_of(ns, i, all[j]));
    if let Some(k) = scope_node_before(ns, i, i) {
        lemma_scope_of(ns, k, n);
        lemma_scope_count(ns, k);
        let p = all[j].parent->0;
        assert(p == scope_count(ns, k));
        assert(scope_of(ns, k, all[p as int]));
    }
}

proof fn lemma_defs_grow(source: Seq<char>, ns: Seq<NodeView>, scopes: Seq<Scope>, a: int, b: int)
    requires
        0 <= a <= b,
    ensures
        defs_upto(source, ns, scopes, a).len() <= defs_upto(source, ns, scopes, b).len(),
        forall|k: int|
            0 <= k < defs_upto(source, ns, scopes, a).len() ==> #[trigger] defs_upto(
                source,
                ns,
                scopes,
                b,
            )[k] == defs_upto(source, ns, scopes, a)[k],
    decreases b - a,
{
    if a < b {
        lemma_defs_grow(source, ns, scopes, a, b - 1);
        let rest = defs_upto(source, ns, scopes, b - 1);
        let all = defs_upto(source, ns, scopes, b);
        assert forall|k: int|
            0 <= k < defs_upto(source, ns, scopes, a).len() implies #[trigger] all[k] == defs_upto(
            source,
            ns,
            scopes,
            a,
        )[k] by {
            assert(all[k] == rest[k]);
        }
    }
}

proof fn lemma_def_place(source: Seq<char>, tree: TreeView, p: int, i: int) -> (k: int)
    requires
        tree.nodes.len() <= usize::MAX,
        0 <= p < tree.nodes.len(),
        0 <= i < tree.nodes.len(),
        binds(tree.nodes, p, i),
    ensures
        defs_upto(source, tree.nodes, scopes_of(tree.nodes), p).len() <= k < defs_upto(
            source,
            tree.nodes,
            scopes_of(tree.nodes),
            p + 1,
        ).len(),
        is_definition(
            source,
            tree.nodes,
            p,
            i,
            defs_upto(source, tree.nodes, scopes_of(tree.nodes), p + 1)[k],
        ),
{
    let ns = tree.nodes;
    let scopes = scopes_of(ns);
    let here = defs_at(source, ns, scopes, p);
    lemma_kind_names();
    lemma_scope_id_is(ns, scope_byte(ns, p, i));
    let d = symbol_of(source, ns, i, kind_by(ns, p), scope_id_at(scopes, scope_byte(ns, p, i)));
    assert(here.contains(d)) by {
        if ns[p].kind == "var_declaration"@ || ns[p].kind == "assignment_statement"@ {
            assert(definition_at(ns, p) == Some((i, bound_value(ns, p))));
            assert(here[0] == d);
        } else if ns[p].kind == "for_in_clause"@ {
            let key = field_child(ns, p, "key"@);
            let at = if key == Some(i) {
                0
            } else if key is Some {
                1
            } else {
                0int
            };
            assert(here[at] == d);
        } else {
            law_parent_lists_child(ns, p, i);
            let k = choose|k: int| 0 <= k < kids(ns, p).len() && kids(ns, p)[k] == i;
            lemma_param_in(source, ns, scopes, kids(ns, p), k);
        }
    }
    let j = choose|j: int| 0 <= j < here.len() && here[j] == d;
    let rest = defs_upto(source, ns, scopes, p);
    assert(defs_upto(source, ns, scopes, p + 1)[rest.len() + j] == d);
    rest.len() + j
}

/// The definitions of a file stand in the order of the nodes that make them.
pub proof fn law_definitions_in_order(
    uri: Seq<char>,
    source: Seq<char>,
    tree: TreeView,
    p: int,
    i: int,
    q: int,
    j: int,
)
    requires
        tree.nodes.len() <= usize::MAX,
        0 <= p < q < tree.nodes.len(),
        0 <= i < tree.nodes.len(),
        0 <= j < tree.nodes.len(),
        binds(tree.nodes, p, i),
        binds(tree.nodes, q, j),
    ensures
        exists|k: int, m: int|
            0 <= k < m < analysed(uri, source, tree).defs.len() && is_definition(
                source,
                tree.nodes,
                p,
                i,
                #[trigger] analysed(uri, source, tree).defs[k],
            ) && is_definition(
                source,
                tree.nodes,
                q,
                j,
                #[trigger] analysed(uri, source, tree).defs[m],
            ),
{
    let ns = tree.nodes;
    let scopes = scopes_of(ns);
    let all = analysed(uri, source, tree).defs;
    let k = lemma_def_place(source, tree, p, i);
    let m = lemma_def_place(source, tree, q, j);
    lemma_defs_grow(source, ns, scopes, p + 1, q);
    lemma_defs_grow(source, ns, scopes, p + 1, ns.len() as int);
    lemma_defs_grow(source, ns, scopes, q + 1, ns.len() as int);
    assert(all[k] == defs_upto(source, ns, scopes, p + 1)[k]);
    assert(all[m] == defs_upto(source, ns, scopes, q + 1)[m]);
}

proof fn lemma_refs_grow(source: Seq<char>, ns: Seq<NodeView>, a: int, b: int)
    requires
        0 <= a <= b,
    ensures
        refs_upto(source, ns, a).len() <= refs_upto(source, ns, b).len(),
        forall|k: int|
            0 <= k < refs_upto(source, ns, a).len() ==> #[trigger] refs_upto(source, ns, b)[k]
                == refs_upto(source, ns, a)[k],
    decreases b - a,
{
    if a < b {
        lemma_refs_grow(source, ns, a, b - 1);
        let rest = refs_upto(source, ns, b - 1);
        let all = refs_upto(source, ns, b);
        assert forall|k: int|
            0 <= k < refs_upto(source, ns, a).len() implies #[trigger] all[k] == refs_upto(
            source,
            ns,
            a,
        )[k] by {
            assert(all[k] == rest[k]);
        }
    }
}

/// The uses of a file stand in the order of its identifiers.
pub proof fn law_uses_in_order(uri: Seq<char>, source: Seq<char>, tree: TreeView, i: int, j: int)
    requires
        0 <= i < j < tree.nodes.len(),
        tree.nodes[i].kind == "identifier"@,
        tree.nodes[j].kind == "identifier"@,
        forall|p: int| 0 <= p < tree.nodes.len() ==> !(#[trigger] binds(tree.nodes, p, i)),
        forall|p: int| 0 <= p < tree.nodes.len() ==> !(#[trigger] binds(tree.nodes, p, j)),
    ensures
        exists|k: int, m: int|
            0 <= k < m < analysed(uri, source, tree).refs.len() && #[trigger] analysed(
                uri,
                source,
                tree,
            ).refs[k] == ref_of(source, tree.nodes, i) && #[trigger] analysed(
                uri,
                source,
                tree,
            ).refs[m] == ref_of(source, tree.nodes, j),
{
    let ns = tree.nodes;
    let all = analysed(uri, source, tree).refs;
    lemma_defining(ns, i);
    lemma_defining(ns, j);
    let k = refs_upto(source, ns, i).len() as int;
    let m = refs_upto(source, ns, j).len() as int;
    lemma_refs_grow(source, ns, i + 1, j);
    lemma_refs_grow(source, ns, i + 1, ns.len() as int);
    lemma_refs_grow(source, ns, j + 1, ns.len() as int);
    assert(all[k] == refs_upto(source, ns, i + 1)[k]);
    assert(all[m] == refs_upto(source, ns, j + 1)[m]);
}

} // verus!
