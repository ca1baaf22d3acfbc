//! What is found and renamed of a variable, said of the identifiers of its
//! file.

use vstd::prelude::*;
use vstd::string::*;

use crate::document::analysed;
use crate::document::resolution;
use crate::document::FileView;
use crate::document::lemma_def_outwards;
use crate::document::reaches;
use crate::exports::export_entries;
use crate::exports::export_map;
use crate::exports::exports_itself;
use crate::exports::names_itself;
use crate::exports::shorthand;
use crate::exports::unquoted;
use crate::exports_laws::keyed;
use crate::exports_laws::lemma_first_entry;
use crate::lsp::parsed_url;
use crate::lsp::LocationView;
use crate::lsp::Position;
use crate::lsp::TextEditView;
use crate::places::point_of;
use crate::places::range_of;
use crate::references::means;
use crate::references::on_export_key;
use crate::references::own_member;
use crate::references::references_at;
use crate::references::references_here;
use crate::references::references_in;
use crate::references::references_to;
use crate::references::selected_module;
use crate::references::subject_of;
use crate::references::top_level;
use crate::references::uses_upto;
use crate::references::WorkspaceView;
use crate::references_laws::law_references_complete;
use crate::references_laws::law_references_mean_the_definition;
use crate::references_laws::nested;
use crate::rename::can_be_name;
use crate::rename::continues_name;
use crate::rename::edits_at;
use crate::rename::keywords;
use crate::rename::renameable;
use crate::rename::renamed;
use crate::rename::file_index;
use crate::rename::RenameErrorView;
use crate::resolver::path_of_uri;
use crate::scope::innermost;
use crate::scope::law_innermost_smallest;
use crate::scope::lemma_scope_count;
use crate::scope::Scope;
use crate::symbols::names_variable;
use crate::symbols::ref_of;
use crate::symbols::SymbolView;
use crate::symbols_laws::binds;
use crate::symbols_laws::is_use;
use crate::symbols_laws::law_identifiers_accounted;
use crate::symbols_laws::lemma_ref_from_node;
use crate::symbols_laws::lemma_defining;
use crate::syntax::field_child;
use crate::syntax::parent_of;
use crate::syntax::smallest_at;
use crate::syntax::text_of;
use crate::syntax::text_or_empty;
use crate::syntax::NodeView;
use crate::syntax::TreeView;

verus! {

/// Whether entry `e` exports `name` as `name: name`.
pub open spec fn exports_as_itself(
    source: Seq<char>,
    ns: Seq<NodeView>,
    e: int,
    name: Seq<char>,
) -> bool {
    &&& export_entries(ns).contains(e)
    &&& exists|k: int, text: Seq<char>| #[trigger]
        keyed(source, ns, e, k, text) && unquoted(text) == name
    &&& field_child(ns, e, "value"@) matches Some(v) && ns[v].kind == "identifier"@
        && text_or_empty(source, ns[v]) == name
}

/// Whether the identifier at node `i` stands for a variable: anywhere but as
/// the field of a selector or as the key of an entry, unless the entry is an
/// export `name: name`.
pub open spec fn stands_for_variable(source: Seq<char>, ns: Seq<NodeView>, i: int) -> bool {
    match parent_of(ns, i) {
        Some(p) => if ns[p].kind == "selector_expression"@ {
            field_child(ns, p, "field"@) != Some(i)
        } else if ns[p].kind == "map_entry"@ {
            field_child(ns, p, "key"@) != Some(i) || exports_as_itself(
                source,
                ns,
                p,
                text_or_empty(source, ns[i]),
            )
        } else {
            true
        },
        None => true,
    }
}

pub proof fn lemma_names_itself(source: Seq<char>, ns: Seq<NodeView>, e: int, name: Seq<char>)
    ensures
        export_entries(ns).contains(e) && names_itself(source, ns, e, name) <==> exports_as_itself(
            source,
            ns,
            e,
            name,
        ),
{
    if names_itself(source, ns, e, name) {
        let k = field_child(ns, e, "key"@)->0;
        assert(keyed(source, ns, e, k, text_of(source, ns[k])->0));
    }
}

pub proof fn lemma_variable(source: Seq<char>, ns: Seq<NodeView>, i: int)
    ensures
        names_variable(source, ns, i) <==> stands_for_variable(source, ns, i),
{
    reveal_strlit("map_entry");
    reveal_strlit("selector_expression");
    assert("map_entry"@.len() != "selector_expression"@.len());
    if let Some(p) = parent_of(ns, i) {
        lemma_names_itself(source, ns, p, text_or_empty(source, ns[i]));
    }
}

/// Whether the identifier at node `j` is a use of `name`: it stands for a
/// variable, and no node defines it.
pub open spec fn uses_name(source: Seq<char>, ns: Seq<NodeView>, j: int, name: Seq<char>) -> bool {
    &&& 0 <= j < ns.len()
    &&& ns[j].kind == "identifier"@
    &&& text_or_empty(source, ns[j]) == name
    &&& stands_for_variable(source, ns, j)
    &&& forall|p: int| 0 <= p < ns.len() ==> !(#[trigger] binds(ns, p, j))
}

/// Whether the definition `d` of `name` concerns its own file only: the file is
/// not on disk, `d` does not stand at its top level, or it does not export
/// `name: name`.
pub open spec fn kept_in_file(f: FileView, name: Seq<char>, d: SymbolView) -> bool {
    ||| path_of_uri(f.uri) is None
    ||| f.scopes[d.scope_id as int].parent is Some
    ||| forall|e: int| !(#[trigger] exports_as_itself(f.source, f.tree.nodes, e, name))
}

/// Whether the identifier at node `i` is what stands at `position`, and it
/// stands for the variable `name` that is defined by `d`. It is not itself a key
/// that its file exports.
pub open spec fn asks_for(
    f: FileView,
    position: Position,
    i: int,
    name: Seq<char>,
    d: SymbolView,
) -> bool {
    let ns = f.tree.nodes;
    &&& smallest_at(ns, point_of(f.source, position)) == Some(i)
    &&& ns[i].kind == "identifier"@
    &&& text_of(f.source, ns[i]) == Some(name)
    &&& stands_for_variable(f.source, ns, i)
    &&& parent_of(ns, i) matches Some(p) ==> ns[p].kind == "map_entry"@ ==> field_child(
        ns,
        p,
        "key"@,
    ) != Some(i)
    &&& resolution(f, name, ns[i].start_byte) == Some(d)
}

proof fn lemma_local(
    f: FileView,
    position: Position,
    i: int,
    name: Seq<char>,
    d: SymbolView,
    found: Option<WorkspaceView>,
    include_declaration: bool,
)
    requires
        asks_for(f, position, i, name, d),
        found is None || kept_in_file(f, name, d),
    ensures
        references_to(f, position, include_declaration, found) == references_here(
            f,
            name,
            f.tree.nodes[i].start_byte,
            include_declaration,
        ),
        found is Some ==> (subject_of(f, position) matches Some(s) && s.owner is Local),
{
    let ns = f.tree.nodes;
    lemma_variable(f.source, ns, i);
    if found is Some && path_of_uri(f.uri) is Some {
        assert(selected_module(f, i) is None);
        assert(!on_export_key(ns, i));
        if own_member(f, i, name) {
            let es = export_entries(ns);
            assert(top_level(f, d) && exports_itself(f.source, f.tree, name));
            let k = choose|k: int|
                0 <= k < es.len() && names_itself(f.source, ns, #[trigger] es[k], name);
            lemma_names_itself(f.source, ns, es[k], name);
            assert(exports_as_itself(f.source, ns, es[k], name));
        }
    }
}

/// Every use of a variable in its file is found from every other place where
/// it stands, and so is its definition where it is asked for.
pub proof fn law_every_use_is_found(
    uri: Seq<char>,
    source: Seq<char>,
    tree: TreeView,
    position: Position,
    i: int,
    name: Seq<char>,
    d: SymbolView,
    at: Seq<char>,
    found: Option<WorkspaceView>,
    include_declaration: bool,
    j: int,
)
    requires
        nested(tree.nodes),
        tree.nodes.len() <= usize::MAX,
        asks_for(analysed(uri, source, tree), position, i, name, d),
        found is None || kept_in_file(analysed(uri, source, tree), name, d),
        parsed_url(uri) == Some(at),
        uses_name(source, tree.nodes, j, name),
        resolution(analysed(uri, source, tree), name, tree.nodes[j].start_byte) == Some(d),
    ensures
        references_to(
            analysed(uri, source, tree),
            position,
            include_declaration,
            found,
        ) matches Some(ls) && ls.contains(
            (LocationView { uri: at, range: range_of(source, tree.nodes[j]) }),
        ),
{
    let f = analysed(uri, source, tree);
    let ns = tree.nodes;
    lemma_local(f, position, i, name, d, found, include_declaration);
    law_identifiers_accounted(uri, source, tree, j);
    let k = choose|k: int|
        0 <= k < f.refs.len() && is_use(source, ns, j, #[trigger] f.refs[k]) && f.refs[k] == ref_of(
            source,
            ns,
            j,
        );
    lemma_variable(source, ns, j);
    law_references_complete(uri, source, tree, k, include_declaration);
    let ranges = references_in(f, name, d, include_declaration);
    let m = choose|m: int| 0 <= m < ranges.len() && ranges[m] == f.refs[k].range;
    let ls = references_at(f, name, d, include_declaration);
    assert(ls[m] == (LocationView { uri: at, range: range_of(source, ns[j]) }));
}

proof fn lemma_def_known(
    uri: Seq<char>,
    source: Seq<char>,
    tree: TreeView,
    name: Seq<char>,
    byte: usize,
)
    requires
        tree.nodes.len() <= usize::MAX,
        resolution(analysed(uri, source, tree), name, byte) is Some,
    ensures
        resolution(analysed(uri, source, tree), name, byte)->0.scope_id < analysed(
            uri,
            source,
            tree,
        ).scopes.len(),
{
    let f = analysed(uri, source, tree);
    let ns = tree.nodes;
    lemma_scope_count(ns, ns.len() as int);
    law_innermost_smallest(f.scopes, byte);
    let s = innermost(f.scopes, byte)->0;
    lemma_def_outwards(f, name, byte, s);
    lemma_reaches_scope(f.scopes, s, resolution(f, name, byte)->0.scope_id as int);
}

proof fn lemma_reaches_scope(scopes: Seq<Scope>, inner: int, outer: int)
    requires
        0 <= inner < scopes.len(),
        reaches(scopes, inner, outer),
    ensures
        0 <= outer < scopes.len(),
    decreases inner,
{
    if inner != outer {
        lemma_reaches_scope(scopes, scopes[inner].parent->0 as int, outer);
    }
}

/// With its definition asked for, a variable has references wherever it stands,
/// the definition first.
pub proof fn law_definition_is_found(
    uri: Seq<char>,
    source: Seq<char>,
    tree: TreeView,
    position: Position,
    i: int,
    name: Seq<char>,
    d: SymbolView,
    at: Seq<char>,
    found: Option<WorkspaceView>,
)
    requires
        tree.nodes.len() <= usize::MAX,
        asks_for(analysed(uri, source, tree), position, i, name, d),
        found is None || kept_in_file(analysed(uri, source, tree), name, d),
        parsed_url(uri) == Some(at),
    ensures
        references_to(analysed(uri, source, tree), position, true, found) matches Some(ls)
            && ls.len() > 0 && ls[0] == (LocationView { uri: at, range: d.range }),
{
    let f = analysed(uri, source, tree);
    lemma_local(f, position, i, name, d, found, true);
    lemma_def_known(uri, source, tree, name, tree.nodes[i].start_byte);
}

/// Nothing else is found of such a variable: whatever is reported is the
/// definition, or an identifier of the file that is called like it and means a
/// definition at its place.
pub proof fn law_only_uses_are_found(
    uri: Seq<char>,
    source: Seq<char>,
    tree: TreeView,
    position: Position,
    i: int,
    name: Seq<char>,
    d: SymbolView,
    found: Option<WorkspaceView>,
    include_declaration: bool,
    l: LocationView,
)
    requires
        asks_for(analysed(uri, source, tree), position, i, name, d),
        found is None || kept_in_file(analysed(uri, source, tree), name, d),
        references_to(
            analysed(uri, source, tree),
            position,
            include_declaration,
            found,
        ) matches Some(ls) && ls.contains(l),
    ensures
        parsed_url(uri) == Some(l.uri),
        (include_declaration && l.range == d.range) || exists|j: int|
            0 <= j < tree.nodes.len() && #[trigger] uses_name(source, tree.nodes, j, name) && l.range
                == range_of(source, tree.nodes[j]) && (resolution(
                analysed(uri, source, tree),
                name,
                tree.nodes[j].start_byte,
            ) matches Some(x) && x.byte_range.start == d.byte_range.start),
{
    let f = analysed(uri, source, tree);
    let ns = tree.nodes;
    lemma_local(f, position, i, name, d, found, include_declaration);
    let ls = references_at(f, name, d, include_declaration);
    let m = choose|m: int| 0 <= m < ls.len() && ls[m] == l;
    let n = f.refs.len() as int;
    let uses = uses_upto(f, name, d, n);
    let at = if include_declaration {
        m - 1
    } else {
        m
    };
    if at >= 0 {
        assert(uses[at] == l.range);
        law_references_mean_the_definition(f, name, d, n, at);
        let k = choose|k: int|
            0 <= k < n && (#[trigger] f.refs[k]).range == uses[at] && means(f, name, d, f.refs[k]);
        let j = lemma_ref_from_node(source, ns, ns.len() as int, k);
        lemma_variable(source, ns, j);
        lemma_defining(ns, j);
        assert(uses_name(source, ns, j, name));
    }
}

/// Every identifier can be renamed, but the key of an entry of the export map;
/// and such a key can where its value is the same name.
pub proof fn law_what_can_be_renamed(f: FileView, position: Position, i: int)
    requires
        smallest_at(f.tree.nodes, point_of(f.source, position)) == Some(i),
        f.tree.nodes[i].kind == "identifier"@,
    ensures
        parent_of(f.tree.nodes, i) is None ==> renameable(f, position) == Some(i),
        parent_of(f.tree.nodes, i) matches Some(p) ==> {
            let ns = f.tree.nodes;
            let inside = export_map(ns) matches Some(m) && ns[m].start_byte <= ns[i].start_byte
                && ns[i].end_byte <= ns[m].end_byte;
            let same = field_child(ns, p, "value"@) matches Some(v) && ns[v].kind
                == "identifier"@ && text_or_empty(f.source, ns[v]) == text_or_empty(
                f.source,
                ns[i],
            );
            let key = ns[p].kind == "map_entry"@ && field_child(ns, p, "key"@) == Some(i);
            renameable(f, position) == (if key && inside && !same {
                None
            } else {
                Some(i)
            })
        },
{
}

/// Nothing but an identifier can be renamed.
pub proof fn law_only_identifiers_renamed(f: FileView, position: Position)
    requires
        smallest_at(f.tree.nodes, point_of(f.source, position)) matches Some(i)
            ==> f.tree.nodes[i].kind != "identifier"@,
    ensures
        renameable(f, position) is None,
{
}

/// Whether `c` can stand in a name; the first character is no digit.
pub open spec fn in_name(c: char, first: bool) -> bool {
    c == '_' || ('a' <= c && c <= 'z') || ('A' <= c && c <= 'Z') || (!first && '0' <= c && c <= '9')
}

/// Whether `s` is a reserved word.
pub open spec fn reserved(s: Seq<char>) -> bool {
    ||| s == "true"@
    ||| s == "false"@
    ||| s == "undefined"@
    ||| s == "if"@
    ||| s == "else"@
    ||| s == "for"@
    ||| s == "func"@
    ||| s == "return"@
    ||| s == "import"@
    ||| s == "export"@
    ||| s == "in"@
    ||| s == "break"@
    ||| s == "continue"@
}

/// The names that a symbol can be given: letters, digits and underscores, no
/// digit first, and no reserved word.
pub proof fn law_names(s: Seq<char>)
    ensures
        can_be_name(s) <==> s.len() > 0 && (forall|i: int|
            0 <= i < s.len() ==> in_name(#[trigger] s[i], i == 0)) && !reserved(s),
{
    let all = keywords();
    if reserved(s) {
        assert(all[0] == "true"@ && all[1] == "false"@ && all[2] == "undefined"@ && all[3]
            == "if"@ && all[4] == "else"@ && all[5] == "for"@ && all[6] == "func"@);
        assert(all[7] == "return"@ && all[8] == "import"@ && all[9] == "export"@ && all[10]
            == "in"@ && all[11] == "break"@ && all[12] == "continue"@);
        assert(all.contains(s));
    }
    if all.contains(s) {
        let k = choose|k: int| 0 <= k < all.len() && all[k] == s;
        assert(k == 0 || k == 1 || k == 2 || k == 3 || k == 4 || k == 5 || k == 6 || k == 7 || k
            == 8 || k == 9 || k == 10 || k == 11 || k == 12);
    }
    if can_be_name(s) {
        assert forall|i: int| 0 <= i < s.len() implies in_name(#[trigger] s[i], i == 0) by {}
    }
    if s.len() > 0 && (forall|i: int| 0 <= i < s.len() ==> in_name(#[trigger] s[i], i == 0)) {
        assert(in_name(s[0], true));
        assert forall|i: int| 0 < i < s.len() implies continues_name(
            #[trigger] s[i],
        ) by {
            assert(in_name(s[i], false));
        }
    }
}

proof fn lemma_edits_of_one_file(ls: Seq<LocationView>, new_name: Seq<char>, uri: Seq<char>)
    requires
        ls.len() > 0,
        forall|i: int| 0 <= i < ls.len() ==> (#[trigger] ls[i]).uri == uri,
    ensures
        edits_at(ls, new_name).len() == 1,
        edits_at(ls, new_name)[0].uri == uri,
        edits_at(ls, new_name)[0].edits == ls.map_values(
            |l: LocationView| TextEditView { range: l.range, new_text: new_name },
        ),
    decreases ls.len(),
{
    let edit = |l: LocationView| TextEditView { range: l.range, new_text: new_name };
    let front = ls.drop_last();
    let all = edits_at(ls, new_name);
    assert(ls[ls.len() - 1].uri == uri);
    reveal_with_fuel(file_index, 2);
    if front.len() == 0 {
        assert(edits_at(front, new_name) =~= seq![]);
        assert(all[0].edits =~= ls.map_values(edit));
    } else {
        assert forall|i: int| 0 <= i < front.len() implies (#[trigger] front[i]).uri == uri by {
            assert(front[i] == ls[i]);
        }
        lemma_edits_of_one_file(front, new_name, uri);
        let rest = edits_at(front, new_name);
        assert(rest.last() == rest[0]);
        assert(file_index(rest, uri) == Some(0int));
        assert(all[0].edits =~= ls.map_values(edit));
    }
}

/// A variable of its own file is renamed wherever it stands: to any usable name,
/// in its file only, at its definition and at every use that means it, and
/// nowhere else.
pub proof fn law_variable_renamed(
    uri: Seq<char>,
    source: Seq<char>,
    tree: TreeView,
    position: Position,
    i: int,
    name: Seq<char>,
    d: SymbolView,
    at: Seq<char>,
    found: Option<WorkspaceView>,
    new_name: Seq<char>,
)
    requires
        nested(tree.nodes),
        tree.nodes.len() <= usize::MAX,
        asks_for(analysed(uri, source, tree), position, i, name, d),
        kept_in_file(analysed(uri, source, tree), name, d) || found is None,
        parsed_url(uri) == Some(at),
        can_be_name(new_name),
    ensures
        renamed(analysed(uri, source, tree), position, new_name, found) matches Ok(es) && es.len()
            == 1 && es[0].uri == at && es[0].edits.contains(
            (TextEditView { range: d.range, new_text: new_name }),
        ) && (forall|j: int| #[trigger]
            uses_name(source, tree.nodes, j, name) && resolution(
                analysed(uri, source, tree),
                name,
                tree.nodes[j].start_byte,
            ) == Some(d) ==> es[0].edits.contains(
                (TextEditView { range: range_of(source, tree.nodes[j]), new_text: new_name }),
            )) && (forall|e: TextEditView| #[trigger]
            es[0].edits.contains(e) ==> e.new_text == new_name && (e.range == d.range || exists|
                j: int,
            | #[trigger]
                uses_name(source, tree.nodes, j, name) && e.range == range_of(source, tree.nodes[j])
                    && (resolution(
                    analysed(uri, source, tree),
                    name,
                    tree.nodes[j].start_byte,
                ) matches Some(x) && x.byte_range.start == d.byte_range.start))),
{
    let f = analysed(uri, source, tree);
    let ns = tree.nodes;
    law_definition_is_found(uri, source, tree, position, i, name, d, at, found);
    lemma_local(f, position, i, name, d, found, true);
    law_what_can_be_renamed(f, position, i);
    let ls = references_to(f, position, true, found)->0;
    assert forall|k: int| 0 <= k < ls.len() implies (#[trigger] ls[k]).uri == at by {}
    lemma_edits_of_one_file(ls, new_name, at);
    let es = edits_at(ls, new_name);
    assert(es[0].edits[0] == (TextEditView { range: d.range, new_text: new_name }));
    assert forall|j: int| #[trigger]
        uses_name(source, ns, j, name) && resolution(f, name, ns[j].start_byte) == Some(
            d,
        ) implies es[0].edits.contains(
        (TextEditView { range: range_of(source, ns[j]), new_text: new_name }),
    ) by {
        law_every_use_is_found(uri, source, tree, position, i, name, d, at, found, true, j);
        let l = LocationView { uri: at, range: range_of(source, ns[j]) };
        let k = choose|k: int| 0 <= k < ls.len() && ls[k] == l;
        assert(es[0].edits[k] == (TextEditView { range: l.range, new_text: new_name }));
    }
    assert forall|e: TextEditView| #[trigger] es[0].edits.contains(e) implies e.new_text == new_name
        && (e.range == d.range || exists|j: int| #[trigger]
        uses_name(source, ns, j, name) && e.range == range_of(source, ns[j]) && (resolution(
            f,
            name,
            ns[j].start_byte,
        ) matches Some(x) && x.byte_range.start == d.byte_range.start)) by {
        let k = choose|k: int| 0 <= k < es[0].edits.len() && es[0].edits[k] == e;
        assert(ls.contains(ls[k]));
        law_only_uses_are_found(uri, source, tree, position, i, name, d, found, true, ls[k]);
    }
}

/// A name that is no usable one is refused, in so many words, wherever it is
/// asked for.
pub proof fn law_unusable_name_refused(
    f: FileView,
    position: Position,
    new_name: Seq<char>,
    found: Option<WorkspaceView>,
)
    requires
        !can_be_name(new_name),
    ensures
        renamed(f, position, new_name, found) matches Err(RenameErrorView::InvalidName(m)) && m
            == "`"@ + new_name + "` is not a valid Tengo identifier"@,
{
}

/// A module exports a name under itself if and only if one of its entries is
/// `name: name`.
pub proof fn law_exports_itself(source: Seq<char>, tree: TreeView, name: Seq<char>)
    ensures
        exports_itself(source, tree, name) <==> exists|e: int| #[trigger]
            exports_as_itself(source, tree.nodes, e, name),
{
    let ns = tree.nodes;
    let es = export_entries(ns);
    if exports_itself(source, tree, name) {
        let k = choose|k: int| 0 <= k < es.len() && names_itself(source, ns, #[trigger] es[k], name);
        lemma_names_itself(source, ns, es[k], name);
        assert(exports_as_itself(source, ns, es[k], name));
    }
    if exists|e: int| #[trigger] exports_as_itself(source, ns, e, name) {
        let e = choose|e: int| #[trigger] exports_as_itself(source, ns, e, name);
        lemma_names_itself(source, ns, e, name);
        let k = choose|k: int| 0 <= k < es.len() && es[k] == e;
        assert(names_itself(source, ns, es[k], name));
    }
}

/// A member is exported as `name: name` if its first entry is so; a later one
/// does not count.
pub proof fn law_first_entry_decides(
    source: Seq<char>,
    tree: TreeView,
    name: Seq<char>,
    i: int,
    k: int,
    text: Seq<char>,
)
    requires
        0 <= i < export_entries(tree.nodes).len(),
        keyed(source, tree.nodes, export_entries(tree.nodes)[i], k, text),
        unquoted(text) == name,
        forall|h: int, k: int, text: Seq<char>|
            0 <= h < i && #[trigger] keyed(
                source,
                tree.nodes,
                export_entries(tree.nodes)[h],
                k,
                text,
            ) ==> unquoted(text) != name,
    ensures
        shorthand(source, tree, name) <==> exports_as_itself(
            source,
            tree.nodes,
            export_entries(tree.nodes)[i],
            name,
        ),
{
    let es = export_entries(tree.nodes);
    lemma_first_entry(source, tree.nodes, es, name, i, k, text);
    assert(es.contains(es[i]));
}

} // verus!
