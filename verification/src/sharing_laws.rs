//! What is found and renamed of a member that a module exports, said of the
//! identifiers of all the files.

use vstd::prelude::*;
use vstd::string::*;

use crate::definition_laws::at;
use crate::definition_laws::selected;
use crate::document::analysed;
use crate::document::resolution;
use crate::document::FileView;
use crate::exports::entry_key;
use crate::exports::entry_name;
use crate::exports::export_entries;
use crate::exports::export_keys;
use crate::exports::export_map;
use crate::exports::exported;
use crate::exports::exports_itself;
use crate::exports::keys_among;
use crate::exports::names_itself;
use crate::exports::unquoted;
use crate::exports_laws::keyed;
use crate::exports_laws::keyed_before;
use crate::exports_laws::law_members_are_entries;
use crate::exports_laws::lemma_entry_bound;
use crate::exports_laws::lemma_map_bound;
use crate::lsp::parsed_url;
use crate::lsp::LocationView;
use crate::lsp::Position;
use crate::places::range_of;
use crate::references::distinct;
use crate::references::has_member;
use crate::references::means;
use crate::references::on_export_key;
use crate::references::references_across;
use crate::references::references_in;
use crate::references::references_to;
use crate::references::selected_module;
use crate::references::selections_upto;
use crate::references::selects;
use crate::references::subject_of;
use crate::references::top_from;
use crate::references::top_level;
use crate::references::uses_among;
use crate::references::uses_in;
use crate::references::uses_inside;
use crate::references::uses_through;
use crate::references::uses_upto;
use crate::references::OwnerView;
use crate::references::ScannedView;
use crate::references::WorkspaceView;
use crate::references_laws::law_distinct;
use crate::references_laws::law_keys_are_uses;
use crate::references_laws::law_references_mean_the_definition;
use crate::references_laws::law_uses_across_complete;
use crate::references_laws::law_uses_inside_complete;
use crate::references_laws::nested;
use crate::rename::can_be_name;
use crate::rename::renameable;
use crate::rename::renamed;
use crate::resolver::path_of_uri;
use crate::symbols::import_named;
use crate::symbols::ref_of;
use crate::symbols::SymbolView;
use crate::symbols_laws::is_use;
use crate::symbols_laws::law_identifiers_accounted;
use crate::symbols_laws::lemma_defining;
use crate::symbols_laws::lemma_ref_from_node;
use crate::syntax::field_child;
use crate::syntax::law_children_and_parents;
use crate::syntax::text_of;
use crate::syntax::NodeView;
use crate::syntax::TreeView;
use crate::syntax_laws::law_field_of_parent;
use crate::syntax_laws::law_parent_lists_child;
use crate::usage_laws::asks_for;
use crate::usage_laws::exports_as_itself;
use crate::usage_laws::lemma_names_itself;
use crate::usage_laws::lemma_variable;
use crate::usage_laws::uses_name;

verus! {

/// Whether the search for what stands at `position` is one for the member
/// `name` of the module that the workspace was read for.
pub open spec fn sought_across(f: FileView, position: Position, name: Seq<char>) -> bool {
    &&& subject_of(f, position) matches Some(s) && s.name == name && s.owner !is Local
    &&& forall|w: WorkspaceView, include_declaration: bool| #[trigger]
        references_to(f, position, include_declaration, Some(w)) == references_across(
            w.target,
            w.module,
            w.files,
            name,
            include_declaration,
        )
}

proof fn lemma_sought(f: FileView, position: Position, name: Seq<char>)
    requires
        subject_of(f, position) matches Some(s) && s.name == name && s.owner !is Local,
    ensures
        sought_across(f, position, name),
{
}

proof fn lemma_exported(f: FileView, e: int, k: int, text: Seq<char>)
    requires
        export_entries(f.tree.nodes).contains(e),
        keyed(f.source, f.tree.nodes, e, k, text),
    ensures
        has_member(exported(f.source, f.tree), unquoted(text)),
{
    let es = export_entries(f.tree.nodes);
    law_members_are_entries(f.source, f.tree);
    let i = choose|i: int| 0 <= i < es.len() && es[i] == e;
    assert(keyed(f.source, f.tree.nodes, es[i], k, text));
    let n = keyed_before(f.source, f.tree.nodes, es, i) as int;
    assert(exported(f.source, f.tree)[n].name == unquoted(text));
}

/// A top-level variable that its file exports as `name: name` is looked for in
/// all files, from wherever it stands.
pub proof fn law_exported_variable_is_shared(
    f: FileView,
    position: Position,
    i: int,
    name: Seq<char>,
    d: SymbolView,
    e: int,
)
    requires
        asks_for(f, position, i, name, d),
        path_of_uri(f.uri) is Some,
        d.scope_id < f.scopes.len(),
        f.scopes[d.scope_id as int].parent is None,
        exports_as_itself(f.source, f.tree.nodes, e, name),
    ensures
        sought_across(f, position, name),
        subject_of(f, position)->0.owner is Own,
{
    let ns = f.tree.nodes;
    let es = export_entries(ns);
    lemma_variable(f.source, ns, i);
    lemma_names_itself(f.source, ns, e, name);
    let h = choose|h: int| 0 <= h < es.len() && es[h] == e;
    assert(names_itself(f.source, ns, es[h], name));
    let (k, text) = choose|k: int, text: Seq<char>| #[trigger]
        keyed(f.source, ns, e, k, text) && unquoted(text) == name;
    lemma_exported(f, e, k, text);
    assert(selected_module(f, i) is None);
    lemma_sought(f, position, name);
}

/// A member that is selected from an imported module is looked for in all files,
/// as a member of that module.
pub proof fn law_selected_member_is_shared(
    f: FileView,
    position: Position,
    i: int,
    p: int,
    alias: Seq<char>,
    name: Seq<char>,
)
    requires
        at(f, position, i, p),
        selected(f, i, p, alias),
        text_of(f.source, f.tree.nodes[i]) == Some(name),
        import_named(f.imports, alias) is Some,
        path_of_uri(f.uri) is Some,
    ensures
        sought_across(f, position, name),
        subject_of(f, position)->0.owner == OwnerView::Module(
            import_named(f.imports, alias)->0.module,
        ),
{
    lemma_sought(f, position, name);
}

/// The key of an export is looked for in all files.
pub proof fn law_export_key_is_shared(
    f: FileView,
    position: Position,
    i: int,
    e: int,
    name: Seq<char>,
)
    requires
        at(f, position, i, e),
        f.tree.nodes[i].kind == "identifier"@,
        export_entries(f.tree.nodes).contains(e),
        keyed(f.source, f.tree.nodes, e, i, name),
        unquoted(name) == name,
        path_of_uri(f.uri) is Some,
    ensures
        sought_across(f, position, name),
        subject_of(f, position)->0.owner is Own,
{
    let ns = f.tree.nodes;
    let es = export_entries(ns);
    lemma_exported(f, e, i, name);
    let h = choose|h: int| 0 <= h < es.len() && es[h] == e;
    lemma_map_bound(ns);
    law_children_and_parents(ns, export_map(ns)->0, h);
    reveal_strlit("map_entry");
    reveal_strlit("selector_expression");
    assert("map_entry"@.len() != "selector_expression"@.len());
    assert(selected_module(f, i) is None);
    lemma_sought(f, position, name);
}

/// The field of anything but an imported module has no references.
pub proof fn law_plain_field_has_no_references(
    f: FileView,
    position: Position,
    i: int,
    p: int,
    found: Option<WorkspaceView>,
    include_declaration: bool,
)
    requires
        at(f, position, i, p),
        f.tree.nodes[i].kind == "identifier"@,
        f.tree.nodes[p].kind == "selector_expression"@,
        field_child(f.tree.nodes, p, "field"@) == Some(i),
        forall|alias: Seq<char>| #[trigger]
            selected(f, i, p, alias) ==> import_named(f.imports, alias) is None,
    ensures
        references_to(f, position, include_declaration, found) is None,
{
    let ns = f.tree.nodes;
    lemma_variable(f.source, ns, i);
    reveal_strlit("map_entry");
    reveal_strlit("selector_expression");
    assert("map_entry"@.len() != "selector_expression"@.len());
    if let Some(o) = field_child(ns, p, "object"@) {
        if let Some(alias) = text_of(f.source, ns[o]) {
            if ns[o].kind == "identifier"@ {
                assert(selected(f, i, p, alias));
            }
        }
    }
    assert(selected_module(f, i) is None);
}

/// The key of a map that is not exported has no references.
pub proof fn law_plain_key_has_no_references(
    f: FileView,
    position: Position,
    i: int,
    e: int,
    found: Option<WorkspaceView>,
    include_declaration: bool,
)
    requires
        at(f, position, i, e),
        0 <= e < f.tree.nodes.len(),
        f.tree.nodes[i].kind == "identifier"@,
        f.tree.nodes[e].kind == "map_entry"@,
        field_child(f.tree.nodes, e, "key"@) == Some(i),
        !export_entries(f.tree.nodes).contains(e),
    ensures
        references_to(f, position, include_declaration, found) is None,
{
    let ns = f.tree.nodes;
    lemma_variable(f.source, ns, i);
    reveal_strlit("map_entry");
    reveal_strlit("selector_expression");
    assert("map_entry"@.len() != "selector_expression"@.len());
    assert(!on_export_key(ns, i)) by {
        if on_export_key(ns, i) {
            law_parent_lists_child(ns, export_map(ns)->0, e);
        }
    }
}

/// Whether file `s` uses `member` of the module at `target` at node `x`: as
/// `alias.member`, where the file imports the module as `alias`.
pub open spec fn uses_member(
    s: ScannedView,
    target: Seq<char>,
    member: Seq<char>,
    k: int,
    n: int,
    x: int,
) -> bool {
    let ns = s.state.tree.nodes;
    &&& s.path != target
    &&& 0 <= k < s.state.imports.len()
    &&& k < s.targets.len()
    &&& s.targets[k] == Some(target)
    &&& 0 <= n < ns.len()
    &&& ns[n].kind == "selector_expression"@
    &&& field_child(ns, n, "object"@) matches Some(o) && ns[o].kind == "identifier"@ && text_of(
        s.state.source,
        ns[o],
    ) == Some(s.state.imports[k].var_name)
    &&& field_child(ns, n, "field"@) == Some(x)
    &&& text_of(s.state.source, ns[x]) == Some(member)
}

/// Every use of a member through an import is found.
pub proof fn law_uses_through_imports_are_found(
    w: WorkspaceView,
    member: Seq<char>,
    include_declaration: bool,
    i: int,
    k: int,
    n: int,
    x: int,
)
    requires
        0 <= i < w.files.len(),
        uses_member(w.files[i], w.target, member, k, n, x),
    ensures
        references_across(w.target, w.module, w.files, member, include_declaration) matches Some(ls)
            && ls.contains(
            (LocationView {
                uri: w.files[i].state.uri,
                range: range_of(w.files[i].state.source, w.files[i].state.tree.nodes[x]),
            }),
        ),
{
    law_uses_across_complete(
        w.target,
        w.module,
        w.files,
        member,
        include_declaration,
        i,
        k,
        n,
    );
}

/// Every use of an exported variable inside its module is found.
pub proof fn law_uses_in_the_module_are_found(
    uri: Seq<char>,
    source: Seq<char>,
    tree: TreeView,
    w: WorkspaceView,
    member: Seq<char>,
    include_declaration: bool,
    e: int,
    u: Seq<char>,
    t: int,
    j: int,
)
    requires
        nested(tree.nodes),
        tree.nodes.len() <= usize::MAX,
        w.module == Some(analysed(uri, source, tree)),
        parsed_url(uri) == Some(u),
        exports_as_itself(source, tree.nodes, e, member),
        first_top_level(analysed(uri, source, tree), member, t),
        uses_name(source, tree.nodes, j, member),
        resolution(analysed(uri, source, tree), member, tree.nodes[j].start_byte) == Some(
            analysed(uri, source, tree).defs[t],
        ),
    ensures
        references_across(w.target, w.module, w.files, member, include_declaration) matches Some(ls)
            && ls.contains((LocationView { uri: u, range: range_of(source, tree.nodes[j]) })),
{
    let f = analysed(uri, source, tree);
    let ns = tree.nodes;
    lemma_itself(f, e, member);
    lemma_top_from(f, member, t, 0);
    law_identifiers_accounted(uri, source, tree, j);
    let k = choose|k: int|
        0 <= k < f.refs.len() && is_use(source, ns, j, #[trigger] f.refs[k]) && f.refs[k] == ref_of(
            source,
            ns,
            j,
        );
    lemma_variable(source, ns, j);
    law_uses_inside_complete(
        uri,
        source,
        tree,
        w.target,
        w.files,
        member,
        include_declaration,
        k,
    );
}

proof fn lemma_itself(f: FileView, e: int, name: Seq<char>)
    requires
        exports_as_itself(f.source, f.tree.nodes, e, name),
    ensures
        exports_itself(f.source, f.tree, name),
{
    let es = export_entries(f.tree.nodes);
    lemma_names_itself(f.source, f.tree.nodes, e, name);
    let h = choose|h: int| 0 <= h < es.len() && es[h] == e;
    assert(names_itself(f.source, f.tree.nodes, es[h], name));
}

/// Whether definition `t` is the first of `name` at the top level of its file.
pub open spec fn first_top_level(f: FileView, name: Seq<char>, t: int) -> bool {
    &&& 0 <= t < f.defs.len()
    &&& defines_top(f, name, t)
    &&& forall|k: int| 0 <= k < t ==> !(#[trigger] defines_top(f, name, k))
}

/// Whether definition `t` is one of `name` at the top level of its file.
pub open spec fn defines_top(f: FileView, name: Seq<char>, t: int) -> bool {
    let scope = f.defs[t].scope_id;
    f.defs[t].name == name && scope < f.scopes.len() && f.scopes[scope as int].parent is None
}

proof fn lemma_top_from(f: FileView, name: Seq<char>, t: int, from: int)
    requires
        first_top_level(f, name, t),
        0 <= from <= t,
    ensures
        top_from(f, name, from) == Some(t),
    decreases t - from,
{
    if from < t {
        assert(!defines_top(f, name, from));
        lemma_top_from(f, name, t, from + 1);
    }
}

proof fn lemma_top_from_is(f: FileView, name: Seq<char>, from: int)
    requires
        0 <= from,
        forall|k: int| 0 <= k < from && k < f.defs.len() ==> !(#[trigger] defines_top(f, name, k)),
    ensures
        top_from(f, name, from) matches Some(t) ==> first_top_level(f, name, t),
    decreases f.defs.len() - from,
{
    if from < f.defs.len() && !(f.defs[from].name == name && top_level(f, f.defs[from])) {
        assert(!defines_top(f, name, from));
        lemma_top_from_is(f, name, from + 1);
    }
}

proof fn lemma_selection_from(
    s: ScannedView,
    alias: Seq<char>,
    member: Seq<char>,
    n: int,
    j: int,
) -> (i: int)
    requires
        0 <= j < selections_upto(s.state.source, s.state.tree.nodes, alias, member, n).len(),
    ensures
        0 <= i < n,
        selects(s.state.source, s.state.tree.nodes, i, alias, member),
        selections_upto(s.state.source, s.state.tree.nodes, alias, member, n)[j] == range_of(
            s.state.source,
            s.state.tree.nodes[field_child(s.state.tree.nodes, i, "field"@)->0],
        ),
    decreases n,
{
    let ns = s.state.tree.nodes;
    if selects(s.state.source, ns, n - 1, alias, member) && j == selections_upto(
        s.state.source,
        ns,
        alias,
        member,
        n,
    ).len() - 1 {
        n - 1
    } else {
        lemma_selection_from(s, alias, member, n - 1, j)
    }
}

proof fn lemma_through_from(
    s: ScannedView,
    target: Seq<char>,
    member: Seq<char>,
    n: int,
    l: LocationView,
)
    requires
        s.path != target,
        n <= s.state.imports.len(),
        uses_through(s, target, member, n).contains(l),
    ensures
        exists|k: int, m: int, x: int| #[trigger]
            uses_member(s, target, member, k, m, x) && l == (LocationView {
                uri: s.state.uri,
                range: range_of(s.state.source, s.state.tree.nodes[x]),
            }),
    decreases n,
{
    let all = uses_through(s, target, member, n);
    let j = choose|j: int| 0 <= j < all.len() && all[j] == l;
    let rest = uses_through(s, target, member, n - 1);
    if j < rest.len() {
        assert(rest[j] == l);
        lemma_through_from(s, target, member, n - 1, l);
    } else {
        let ns = s.state.tree.nodes;
        let alias = s.state.imports[n - 1].var_name;
        let m = lemma_selection_from(s, alias, member, ns.len() as int, j - rest.len());
        let x = field_child(ns, m, "field"@)->0;
        assert(uses_member(s, target, member, n - 1, m, x));
    }
}

proof fn lemma_among_from(
    files: Seq<ScannedView>,
    target: Seq<char>,
    member: Seq<char>,
    l: LocationView,
)
    requires
        uses_among(files, target, member).contains(l),
    ensures
        exists|i: int, k: int, m: int, x: int|
            0 <= i < files.len() && #[trigger] uses_member(files[i], target, member, k, m, x) && l
                == (LocationView {
                uri: files[i].state.uri,
                range: range_of(files[i].state.source, files[i].state.tree.nodes[x]),
            }),
    decreases files.len(),
{
    let all = uses_among(files, target, member);
    let j = choose|j: int| 0 <= j < all.len() && all[j] == l;
    if files.len() > 0 {
        let front = files.drop_last();
        let rest = uses_among(front, target, member);
        if j < rest.len() {
            assert(rest[j] == l);
            lemma_among_from(front, target, member, l);
            let (i, k, m, x) = choose|i: int, k: int, m: int, x: int|
                0 <= i < front.len() && #[trigger] uses_member(front[i], target, member, k, m, x)
                    && l == (LocationView {
                    uri: front[i].state.uri,
                    range: range_of(front[i].state.source, front[i].state.tree.nodes[x]),
                });
            assert(files[i] == front[i]);
            assert(uses_member(files[i], target, member, k, m, x));
        } else {
            let s = files.last();
            assert(uses_in(s, target, member)[j - rest.len()] == l);
            lemma_through_from(s, target, member, s.state.imports.len() as int, l);
            let (k, m, x) = choose|k: int, m: int, x: int| #[trigger]
                uses_member(s, target, member, k, m, x) && l == (LocationView {
                    uri: s.state.uri,
                    range: range_of(s.state.source, s.state.tree.nodes[x]),
                });
            assert(uses_member(files[files.len() - 1], target, member, k, m, x));
        }
    }
}

/// Nothing else is found of a member: whatever is reported is a use of it
/// through an import, or lies in the module that exports it as `name: name` and
/// is its first top-level definition, or an identifier that means one at that
/// place.
pub proof fn law_only_uses_are_found_across(
    uri: Seq<char>,
    source: Seq<char>,
    tree: TreeView,
    w: WorkspaceView,
    member: Seq<char>,
    include_declaration: bool,
    l: LocationView,
)
    requires
        w.module matches Some(m) ==> m == analysed(uri, source, tree),
        references_across(w.target, w.module, w.files, member, include_declaration) matches Some(ls)
            && ls.contains(l),
    ensures
        (exists|i: int, k: int, m: int, x: int|
            0 <= i < w.files.len() && #[trigger] uses_member(
                w.files[i],
                w.target,
                member,
                k,
                m,
                x,
            ) && l == (LocationView {
                uri: w.files[i].state.uri,
                range: range_of(w.files[i].state.source, w.files[i].state.tree.nodes[x]),
            })) || (w.module is Some && parsed_url(uri) == Some(l.uri) && (exists|e: int| #[trigger]
            exports_as_itself(source, tree.nodes, e, member)) && (exists|t: int| #[trigger]
            first_top_level(analysed(uri, source, tree), member, t) && {
                let d = analysed(uri, source, tree).defs[t];
                (include_declaration && l.range == d.range) || exists|j: int| #[trigger]
                    uses_name(source, tree.nodes, j, member) && l.range == range_of(
                        source,
                        tree.nodes[j],
                    ) && (resolution(
                        analysed(uri, source, tree),
                        member,
                        tree.nodes[j].start_byte,
                    ) matches Some(x) && x.byte_range.start == d.byte_range.start)
            })),
{
    let inside = uses_inside(w.module, member, include_declaration);
    let among = uses_among(w.files, w.target, member);
    law_distinct(inside + among);
    assert(distinct(inside + among).contains(l));
    assert((inside + among).contains(l));
    let h = choose|h: int| 0 <= h < (inside + among).len() && (inside + among)[h] == l;
    if h >= inside.len() {
        assert(among[h - inside.len()] == l);
        lemma_among_from(w.files, w.target, member, l);
    } else {
        let f = analysed(uri, source, tree);
        let ns = tree.nodes;
        assert(inside[h] == l);
        let t = top_from(f, member, 0)->0;
        lemma_top_from_is(f, member, 0);
        let d = f.defs[t];
        let es = export_entries(ns);
        let g = choose|g: int|
            0 <= g < es.len() && names_itself(source, ns, #[trigger] es[g], member);
        lemma_names_itself(source, ns, es[g], member);
        assert(exports_as_itself(source, ns, es[g], member));
        let n = f.refs.len() as int;
        let uses = uses_upto(f, member, d, n);
        let m = if include_declaration {
            h - 1
        } else {
            h
        };
        if m >= 0 {
            assert(uses[m] == l.range);
            law_references_mean_the_definition(f, member, d, n, m);
            let k = choose|k: int|
                0 <= k < n && (#[trigger] f.refs[k]).range == uses[m] && means(
                    f,
                    member,
                    d,
                    f.refs[k],
                );
            let j = lemma_ref_from_node(source, ns, ns.len() as int, k);
            lemma_variable(source, ns, j);
            lemma_defining(ns, j);
            assert(uses_name(source, ns, j, member));
        }
        assert(first_top_level(f, member, t));
    }
}

proof fn lemma_key_from(
    source: Seq<char>,
    ns: Seq<NodeView>,
    es: Seq<int>,
    member: Seq<char>,
    j: int,
) -> (i: int)
    requires
        0 <= j < keys_among(source, ns, es, member).len(),
    ensures
        0 <= i < es.len(),
        entry_name(source, ns, es[i]) == Some(member),
        keys_among(source, ns, es, member)[j] == range_of(source, ns[entry_key(ns, es[i])->0]),
    decreases es.len(),
{
    if entry_name(source, ns, es.last()) == Some(member) && j == keys_among(
        source,
        ns,
        es,
        member,
    ).len() - 1 {
        es.len() - 1
    } else {
        lemma_key_from(source, ns, es.drop_last(), member, j)
    }
}

/// A member is renamed wherever it is asked for, if its module exports it as
/// `name: name` and as nothing else, and the keys mean its first top-level
/// definition.
pub proof fn law_shared_member_renamed(
    uri: Seq<char>,
    source: Seq<char>,
    tree: TreeView,
    f: FileView,
    position: Position,
    w: WorkspaceView,
    name: Seq<char>,
    new_name: Seq<char>,
    u: Seq<char>,
    t: int,
)
    requires
        nested(tree.nodes),
        tree.nodes.len() <= usize::MAX,
        w.module == Some(analysed(uri, source, tree)),
        parsed_url(uri) == Some(u),
        first_top_level(analysed(uri, source, tree), name, t),
        exists|e: int| #[trigger] exports_as_itself(source, tree.nodes, e, name),
        forall|e: int, k: int, text: Seq<char>| #[trigger]
            keyed(source, tree.nodes, e, k, text) && export_entries(tree.nodes).contains(e)
                && unquoted(text) == name ==> text == name && tree.nodes[k].kind == "identifier"@
                && exports_as_itself(source, tree.nodes, e, name) && resolution(
                analysed(uri, source, tree),
                name,
                tree.nodes[k].start_byte,
            ) == Some(analysed(uri, source, tree).defs[t]),
        sought_across(f, position, name),
        renameable(f, position) is Some,
        can_be_name(new_name),
    ensures
        renamed(f, position, new_name, Some(w)) is Ok,
{
    let m = analysed(uri, source, tree);
    let ns = tree.nodes;
    let e0 = choose|e: int| #[trigger] exports_as_itself(source, ns, e, name);
    lemma_itself(m, e0, name);
    lemma_top_from(m, name, t, 0);
    let found = references_across(w.target, w.module, w.files, name, true);
    let inside = uses_inside(w.module, name, true);
    let among = uses_among(w.files, w.target, name);
    law_distinct(inside + among);
    assert(references_in(m, name, m.defs[t], true).len() > 0);
    assert((inside + among).contains((inside + among)[0]));
    assert(distinct(inside + among).contains((inside + among)[0]));
    assert(found is Some);
    assert(references_to(f, position, true, Some(w)) == found);
    let ls = found->0;
    let keys = export_keys(source, tree, name);
    assert forall|j: int| 0 <= j < keys.len() implies ls.contains(
        (LocationView { uri: u, range: #[trigger] keys[j] }),
    ) by {
        let es = export_entries(ns);
        let i = lemma_key_from(source, ns, es, name, j);
        let e = es[i];
        let k = entry_key(ns, e)->0;
        let text = text_of(source, ns[k])->0;
        assert(keyed(source, ns, e, k, text));
        assert(es.contains(e));
        lemma_map_bound(ns);
        lemma_entry_bound(ns, i);
        law_field_of_parent(ns, e, "key"@);
        lemma_names_itself(source, ns, e, name);
        law_keys_are_uses(source, ns, e, k);
        lemma_defining(ns, k);
        lemma_variable(source, ns, k);
        assert(uses_name(source, ns, k, name));
        law_uses_in_the_module_are_found(uri, source, tree, w, name, true, e, u, t, k);
    }
}

/// The keys that a module exports a member under are those of the entries of
/// that name, and no others.
pub proof fn law_only_keys_listed(source: Seq<char>, tree: TreeView, member: Seq<char>, j: int)
    requires
        0 <= j < export_keys(source, tree, member).len(),
    ensures
        exists|e: int, k: int, text: Seq<char>|
            export_entries(tree.nodes).contains(e) && #[trigger] keyed(
                source,
                tree.nodes,
                e,
                k,
                text,
            ) && unquoted(text) == member && export_keys(source, tree, member)[j] == range_of(
                source,
                tree.nodes[k],
            ),
{
    let ns = tree.nodes;
    let es = export_entries(ns);
    let i = lemma_key_from(source, ns, es, member, j);
    let k = entry_key(ns, es[i])->0;
    assert(es.contains(es[i]));
    assert(keyed(source, ns, es[i], k, text_of(source, ns[k])->0));
}

} // verus!
