//! What holds of every search for references.

use vstd::prelude::*;
use vstd::string::*;

use crate::document::analysed;
use crate::document::lemma_def_outwards;
use crate::document::reaches;
use crate::document::resolution;
use crate::document::FileView;
use crate::exports::entry_key;
use crate::exports::export_entries;
use crate::exports::exports_itself;
use crate::exports::names_itself;
use crate::exports::shorthand_key;
use crate::lsp::parsed_url;
use crate::lsp::LocationView;
use crate::lsp::Position;
use crate::places::range_of;
use crate::references::distinct;
use crate::references::means;
use crate::references::on_export_key;
use crate::references::references_across;
use crate::references::references_in;
use crate::references::references_to;
use crate::references::selections;
use crate::references::selections_upto;
use crate::references::selects;
use crate::references::subject_of;
use crate::references::top_from;
use crate::references::uses_among;
use crate::references::uses_in;
use crate::references::uses_inside;
use crate::references::uses_through;
use crate::references::uses_upto;
use crate::references::ScannedView;
use crate::references::WorkspaceView;
use crate::scope::encloses;
use crate::scope::innermost;
use crate::scope::law_innermost_smallest;
use crate::scope::law_scopes_numbered;
use crate::scope::lemma_scope_count;
use crate::scope::lemma_scope_node;
use crate::scope::makes_scope;
use crate::scope::scope_count;
use crate::scope::scope_node_before;
use crate::scope::scopes_upto;
use crate::scope::Scope;
use crate::symbols::ref_of;
use crate::symbols::refers;
use crate::symbols::refs_upto;
use crate::symbols::SymbolView;
use crate::syntax::field_child;
use crate::syntax::parent_of;
use crate::syntax::text_or_empty;
use crate::syntax::NodeView;
use crate::syntax::TreeView;

verus! {

/// Every reference that is reported inside a file is a use of the name that
/// means the definition: one that a shadowing name hides is never reported.
pub proof fn law_references_mean_the_definition(
    f: FileView,
    name: Seq<char>,
    d: SymbolView,
    n: int,
    i: int,
)
    requires
        0 <= n <= f.refs.len(),
        0 <= i < uses_upto(f, name, d, n).len(),
    ensures
        exists|k: int|
            0 <= k < n && (#[trigger] f.refs[k]).range == uses_upto(f, name, d, n)[i] && means(
                f,
                name,
                d,
                f.refs[k],
            ),
    decreases n,
{
    if n > 0 {
        if means(f, name, d, f.refs[n - 1]) && i == uses_upto(f, name, d, n).len() - 1 {
            assert(f.refs[n - 1].range == uses_upto(f, name, d, n)[i]);
        } else {
            law_references_mean_the_definition(f, name, d, n - 1, i);
        }
    }
}

/// Whether every node lies within the extent of each node around it.
pub open spec fn nested(ns: Seq<NodeView>) -> bool {
    forall|k: int, i: int|
        #![trigger ns[k], ns[i]]
        0 <= k < i < ns.len() && encloses(ns, k, i) ==> ns[k].start_byte <= ns[i].start_byte
            && ns[i].end_byte <= ns[k].end_byte
}

/// The scope that a node makes is listed under the number of scopes before
/// it.
proof fn lemma_scope_of_node(ns: Seq<NodeView>, k: int, n: int)
    requires
        0 <= k < n <= ns.len() <= usize::MAX,
        makes_scope(ns[k].kind),
    ensures
        0 <= scope_count(ns, k) < scopes_upto(ns, n).len(),
        scopes_upto(ns, n)[scope_count(ns, k) as int].start_byte == ns[k].start_byte,
        scopes_upto(ns, n)[scope_count(ns, k) as int].end_byte == ns[k].end_byte,
    decreases n,
{
    lemma_scope_count(ns, n - 1);
    if k == n - 1 {
    } else {
        lemma_scope_of_node(ns, k, n - 1);
    }
}

/// A scope lies within the scope that it names as its parent.
pub proof fn law_scopes_nest(ns: Seq<NodeView>, n: int)
    requires
        nested(ns),
        0 <= n <= ns.len() <= usize::MAX,
    ensures
        forall|i: int|
            0 <= i < scopes_upto(ns, n).len() ==> ((#[trigger] scopes_upto(ns, n)[i]).parent matches Some(
                p,
            ) ==> p < i && scopes_upto(ns, n)[p as int].start_byte <= scopes_upto(ns, n)[i].start_byte
                && scopes_upto(ns, n)[i].end_byte <= scopes_upto(ns, n)[p as int].end_byte),
    decreases n,
{
    if n > 0 {
        law_scopes_nest(ns, n - 1);
        law_scopes_numbered(ns, n);
        let last = n - 1;
        if makes_scope(ns[last].kind) {
            lemma_scope_node(ns, last, last);
            lemma_scope_count(ns, last);
            if let Some(k) = scope_node_before(ns, last, last) {
                lemma_scope_of_node(ns, k, last);
                lemma_scope_count(ns, k);
                assert(ns[k].start_byte <= ns[last].start_byte);
            }
        }
    }
}

/// A scope holds whatever the scopes inside it hold.
proof fn lemma_reached_holds(scopes: Seq<Scope>, byte: usize, inner: int, outer: int)
    requires
        0 <= inner < scopes.len(),
        reaches(scopes, inner, outer),
        scopes[inner].holds(byte),
        forall|i: int|
            0 <= i < scopes.len() ==> ((#[trigger] scopes[i]).parent matches Some(p) ==> p < i
                && scopes[p as int].start_byte <= scopes[i].start_byte && scopes[i].end_byte
                <= scopes[p as int].end_byte),
    ensures
        0 <= outer < scopes.len(),
        scopes[outer].holds(byte),
    decreases inner,
{
    if inner != outer {
        lemma_reached_holds(scopes, byte, scopes[inner].parent->0 as int, outer);
    }
}

proof fn lemma_used(f: FileView, name: Seq<char>, d: SymbolView, n: int, k: int)
    requires
        0 <= k < n <= f.refs.len(),
        means(f, name, d, f.refs[k]),
    ensures
        uses_upto(f, name, d, n).contains(f.refs[k].range),
    decreases n,
{
    let all = uses_upto(f, name, d, n);
    if k == n - 1 {
        assert(all.last() == f.refs[k].range);
    } else {
        lemma_used(f, name, d, n - 1, k);
        let rest = uses_upto(f, name, d, n - 1);
        let i = choose|i: int| 0 <= i < rest.len() && rest[i] == f.refs[k].range;
        assert(all[i] == f.refs[k].range);
    }
}

/// Every use of a variable in a file is among the references to the definition
/// that it means.
pub proof fn law_references_complete(
    uri: Seq<char>,
    source: Seq<char>,
    tree: TreeView,
    k: int,
    include_declaration: bool,
)
    requires
        nested(tree.nodes),
        tree.nodes.len() <= usize::MAX,
        0 <= k < analysed(uri, source, tree).refs.len(),
    ensures
        ({
            let f = analysed(uri, source, tree);
            let r = f.refs[k];
            r.variable ==> (resolution(f, r.name, r.byte_range.start) matches Some(d)
                ==> references_in(f, r.name, d, include_declaration).contains(r.range))
        }),
{
    let f = analysed(uri, source, tree);
    let r = f.refs[k];
    let at = r.byte_range.start;
    if r.variable && resolution(f, r.name, at) is Some {
        let d = resolution(f, r.name, at)->0;
        law_scopes_nest(tree.nodes, tree.nodes.len() as int);
        lemma_scope_count(tree.nodes, tree.nodes.len() as int);
        law_innermost_smallest(f.scopes, at);
        let s = innermost(f.scopes, at)->0;
        lemma_def_outwards(f, r.name, at, s);
        lemma_reached_holds(f.scopes, at, s, d.scope_id as int);
        assert(means(f, r.name, d, r));
        lemma_used(f, r.name, d, f.refs.len() as int, k);
        let uses = uses_upto(f, r.name, d, f.refs.len() as int);
        let all = references_in(f, r.name, d, include_declaration);
        let i = choose|i: int| 0 <= i < uses.len() && uses[i] == r.range;
        assert(all[i + (if include_declaration {
            1int
        } else {
            0int
        })] == r.range);
    }
}

/// A list of locations without repetitions holds the same locations, each
/// once.
pub proof fn law_distinct(ls: Seq<LocationView>)
    ensures
        distinct(ls).no_duplicates(),
        forall|l: LocationView| #[trigger] distinct(ls).contains(l) <==> ls.contains(l),
    decreases ls.len(),
{
    if ls.len() > 0 {
        let front = ls.drop_last();
        law_distinct(front);
        let rest = distinct(front);
        assert forall|l: LocationView| #[trigger] distinct(ls).contains(l) <==> ls.contains(l) by {
            assert(ls =~= front.push(ls.last()));
            if ls.contains(l) && !front.contains(l) {
                let i = choose|i: int| 0 <= i < ls.len() && ls[i] == l;
                if i < front.len() {
                    assert(front[i] == l);
                }
                assert(l == ls.last());
            }
            if front.contains(l) {
                let i = choose|i: int| 0 <= i < front.len() && front[i] == l;
                assert(ls[i] == l);
            }
            assert(ls.last() == ls[ls.len() - 1]);
            if rest.contains(l) {
                let i = choose|i: int| 0 <= i < rest.len() && rest[i] == l;
                assert(distinct(ls)[i] == l);
            }
            if !rest.contains(ls.last()) {
                assert(distinct(ls)[rest.len() as int] == ls.last());
                if distinct(ls).contains(l) && !rest.contains(l) {
                    let i = choose|i: int| 0 <= i < distinct(ls).len() && distinct(ls)[i] == l;
                    if i < rest.len() {
                        assert(rest[i] == l);
                    }
                }
            }
        }
    }
}

/// What a search finds is reported once.
pub proof fn law_references_distinct(
    target: Seq<char>,
    module: Option<FileView>,
    files: Seq<ScannedView>,
    member: Seq<char>,
    include_declaration: bool,
)
    ensures
        references_across(target, module, files, member, include_declaration) matches Some(ls)
            ==> ls.no_duplicates() && ls.len() > 0,
{
    law_distinct(
        uses_inside(module, member, include_declaration) + uses_among(files, target, member),
    );
}

/// A name that is known within its file only is looked for in its file only.
pub proof fn law_local_stays_in_file(
    f: FileView,
    position: Position,
    include_declaration: bool,
    found: Option<WorkspaceView>,
)
    requires
        subject_of(f, position) matches Some(s) && s.owner is Local,
    ensures
        references_to(f, position, include_declaration, found) == references_to(
            f,
            position,
            include_declaration,
            None,
        ),
        references_to(f, position, include_declaration, found) matches Some(ls) ==> forall|i: int|
            0 <= i < ls.len() ==> Some((#[trigger] ls[i]).uri) == parsed_url(f.uri),
{
}

proof fn lemma_selected(
    source: Seq<char>,
    ns: Seq<NodeView>,
    alias: Seq<char>,
    member: Seq<char>,
    n: int,
    i: int,
)
    requires
        0 <= i < n <= ns.len(),
        selects(source, ns, i, alias, member),
    ensures
        selections_upto(source, ns, alias, member, n).contains(
            range_of(source, ns[field_child(ns, i, "field"@)->0]),
        ),
    decreases n,
{
    let range = range_of(source, ns[field_child(ns, i, "field"@)->0]);
    let all = selections_upto(source, ns, alias, member, n);
    if i == n - 1 {
        assert(all.last() == range);
    } else {
        lemma_selected(source, ns, alias, member, n - 1, i);
        let rest = selections_upto(source, ns, alias, member, n - 1);
        let j = choose|j: int| 0 <= j < rest.len() && rest[j] == range;
        assert(all[j] == range);
    }
}

proof fn lemma_used_through(
    s: ScannedView,
    target: Seq<char>,
    member: Seq<char>,
    n: int,
    k: int,
    l: LocationView,
)
    requires
        0 <= k < n,
        k < s.targets.len(),
        s.targets[k] == Some(target),
        selections(s.state, s.state.imports[k].var_name, member).contains(l),
    ensures
        uses_through(s, target, member, n).contains(l),
    decreases n,
{
    let all = uses_through(s, target, member, n);
    let rest = uses_through(s, target, member, n - 1);
    if k == n - 1 {
        let here = selections(s.state, s.state.imports[k].var_name, member);
        let j = choose|j: int| 0 <= j < here.len() && here[j] == l;
        assert(all[rest.len() + j] == l);
    } else {
        lemma_used_through(s, target, member, n - 1, k, l);
        let j = choose|j: int| 0 <= j < rest.len() && rest[j] == l;
        assert(all[j] == l);
    }
}

proof fn lemma_used_among(
    files: Seq<ScannedView>,
    target: Seq<char>,
    member: Seq<char>,
    i: int,
    l: LocationView,
)
    requires
        0 <= i < files.len(),
        uses_in(files[i], target, member).contains(l),
    ensures
        uses_among(files, target, member).contains(l),
    decreases files.len(),
{
    let front = files.drop_last();
    let rest = uses_among(front, target, member);
    let here = uses_in(files.last(), target, member);
    if i == files.len() - 1 {
        let j = choose|j: int| 0 <= j < here.len() && here[j] == l;
        assert((rest + here)[rest.len() + j] == l);
    } else {
        assert(front[i] == files[i]);
        lemma_used_among(front, target, member, i, l);
        let j = choose|j: int| 0 <= j < rest.len() && rest[j] == l;
        assert((rest + here)[j] == l);
    }
}

/// Every `alias.member` in a file that imports the module as `alias` is among
/// the references to the member.
pub proof fn law_uses_across_complete(
    target: Seq<char>,
    module: Option<FileView>,
    files: Seq<ScannedView>,
    member: Seq<char>,
    include_declaration: bool,
    i: int,
    k: int,
    node: int,
)
    requires
        0 <= i < files.len(),
        files[i].path != target,
        0 <= k < files[i].state.imports.len(),
        k < files[i].targets.len(),
        files[i].targets[k] == Some(target),
        0 <= node < files[i].state.tree.nodes.len(),
        selects(
            files[i].state.source,
            files[i].state.tree.nodes,
            node,
            files[i].state.imports[k].var_name,
            member,
        ),
    ensures
        references_across(target, module, files, member, include_declaration) matches Some(ls)
            && ls.contains(
            (LocationView {
                uri: files[i].state.uri,
                range: range_of(
                    files[i].state.source,
                    files[i].state.tree.nodes[field_child(
                        files[i].state.tree.nodes,
                        node,
                        "field"@,
                    )->0],
                ),
            }),
        ),
{
    let s = files[i];
    let ns = s.state.tree.nodes;
    let alias = s.state.imports[k].var_name;
    let range = range_of(s.state.source, ns[field_child(ns, node, "field"@)->0]);
    let l = LocationView { uri: s.state.uri, range };
    lemma_selected(s.state.source, ns, alias, member, ns.len() as int, node);
    let ranges = selections_upto(s.state.source, ns, alias, member, ns.len() as int);
    let j = choose|j: int| 0 <= j < ranges.len() && ranges[j] == range;
    assert(selections(s.state, alias, member)[j] == l);
    lemma_used_through(s, target, member, s.state.imports.len() as int, k, l);
    lemma_used_among(files, target, member, i, l);
    let inside = uses_inside(module, member, include_declaration);
    let among = uses_among(files, target, member);
    let m = choose|m: int| 0 <= m < among.len() && among[m] == l;
    assert((inside + among)[inside.len() + m] == l);
    law_distinct(inside + among);
    assert((inside + among).contains(l));
    assert(distinct(inside + among).contains(l));
}

/// Every use inside a module that means the definition of a member that the
/// module exports under its own name is among the references to the member:
/// so is the key of the export.
pub proof fn law_uses_inside_complete(
    uri: Seq<char>,
    source: Seq<char>,
    tree: TreeView,
    target: Seq<char>,
    files: Seq<ScannedView>,
    member: Seq<char>,
    include_declaration: bool,
    k: int,
)
    requires
        nested(tree.nodes),
        tree.nodes.len() <= usize::MAX,
        0 <= k < analysed(uri, source, tree).refs.len(),
        analysed(uri, source, tree).refs[k].name == member,
        analysed(uri, source, tree).refs[k].variable,
        exports_itself(source, tree, member),
        parsed_url(uri) is Some,
        ({
            let f = analysed(uri, source, tree);
            top_from(f, member, 0) matches Some(t) && resolution(
                f,
                member,
                f.refs[k].byte_range.start,
            ) == Some(f.defs[t])
        }),
    ensures
        references_across(
            target,
            Some(analysed(uri, source, tree)),
            files,
            member,
            include_declaration,
        ) matches Some(ls) && ls.contains(
            (LocationView {
                uri: parsed_url(uri)->0,
                range: analysed(uri, source, tree).refs[k].range,
            }),
        ),
{
    let f = analysed(uri, source, tree);
    let d = f.defs[top_from(f, member, 0)->0];
    law_references_complete(uri, source, tree, k, include_declaration);
    let ranges = references_in(f, member, d, include_declaration);
    let i = choose|i: int| 0 <= i < ranges.len() && ranges[i] == f.refs[k].range;
    let inside = uses_inside(Some(f), member, include_declaration);
    let l = LocationView { uri: parsed_url(uri)->0, range: f.refs[k].range };
    assert(inside[i] == l);
    let among = uses_among(files, target, member);
    assert((inside + among)[i] == l);
    law_distinct(inside + among);
    assert((inside + among).contains(l));
    assert(distinct(inside + among).contains(l));
}

proof fn lemma_ref_has_node(source: Seq<char>, ns: Seq<NodeView>, n: int, k: int)
    requires
        0 <= k < refs_upto(source, ns, n).len(),
    ensures
        exists|i: int|
            0 <= i < n && refers(ns, i) && #[trigger] ref_of(source, ns, i) == refs_upto(
                source,
                ns,
                n,
            )[k],
    decreases n,
{
    if n > 0 {
        if refers(ns, n - 1) && k == refs_upto(source, ns, n).len() - 1 {
            assert(ref_of(source, ns, n - 1) == refs_upto(source, ns, n)[k]);
        } else {
            lemma_ref_has_node(source, ns, n - 1, k);
        }
    }
}

/// The references to a name that its file does not export as `name: name` hold
/// no key of the map that the file exports.
pub proof fn law_private_names_keep_off_keys(
    uri: Seq<char>,
    source: Seq<char>,
    tree: TreeView,
    name: Seq<char>,
    d: SymbolView,
    k: int,
)
    requires
        0 <= k < analysed(uri, source, tree).refs.len(),
        means(analysed(uri, source, tree), name, d, analysed(uri, source, tree).refs[k]),
        !exports_itself(source, tree, name),
    ensures
        exists|i: int|
            0 <= i < tree.nodes.len() && #[trigger] ref_of(source, tree.nodes, i) == analysed(
                uri,
                source,
                tree,
            ).refs[k] && !on_export_key(tree.nodes, i),
{
    let ns = tree.nodes;
    let f = analysed(uri, source, tree);
    lemma_ref_has_node(source, ns, ns.len() as int, k);
    let i = choose|i: int|
        0 <= i < ns.len() && refers(ns, i) && #[trigger] ref_of(source, ns, i) == f.refs[k];
    if on_export_key(ns, i) {
        let e = parent_of(ns, i)->0;
        reveal_strlit("selector_expression");
        reveal_strlit("map_entry");
        assert("map_entry"@.len() != "selector_expression"@.len());
        assert(shorthand_key(source, ns, i));
        let es = export_entries(ns);
        let j = choose|j: int| 0 <= j < es.len() && es[j] == e;
        assert(names_itself(source, ns, es[j], name));
    }
}

/// The key of every export `name: name` stands for the variable `name`.
pub proof fn law_keys_are_uses(source: Seq<char>, ns: Seq<NodeView>, e: int, i: int)
    requires
        export_entries(ns).contains(e),
        entry_key(ns, e) == Some(i),
        parent_of(ns, i) == Some(e),
        ns[i].kind == "identifier"@,
        names_itself(source, ns, e, text_or_empty(source, ns[i])),
    ensures
        refers(ns, i),
        ref_of(source, ns, i).variable,
{
    reveal_strlit("map_entry");
    reveal_strlit("selector_expression");
    reveal_strlit("var_declaration");
    reveal_strlit("assignment_statement");
    reveal_strlit("parameter_list");
    reveal_strlit("variadic_parameter");
    reveal_strlit("for_in_clause");
    assert("map_entry"@.len() == 9);
}

/// Asked for, the declaration is added to the references in its file, and
/// nothing else.
pub proof fn law_declaration_adds_itself(f: FileView, name: Seq<char>, d: SymbolView)
    requires
        d.scope_id < f.scopes.len(),
    ensures
        references_in(f, name, d, true) == seq![d.range] + references_in(f, name, d, false),
{
    let uses = uses_upto(f, name, d, f.refs.len() as int);
    assert(references_in(f, name, d, false) =~= uses);
}

/// Whether a search reports the location.
pub open spec fn reports(found: Option<Seq<LocationView>>, l: LocationView) -> bool {
    found matches Some(ls) && ls.contains(l)
}

/// The same across files: where the module has the declaration of the member,
/// asking for it adds it and nothing else.
pub proof fn law_declaration_adds_itself_across(
    target: Seq<char>,
    f: FileView,
    files: Seq<ScannedView>,
    member: Seq<char>,
    t: int,
    uri: Seq<char>,
    l: LocationView,
)
    requires
        top_from(f, member, 0) == Some(t),
        f.defs[t].scope_id < f.scopes.len(),
        exports_itself(f.source, f.tree, member),
        parsed_url(f.uri) == Some(uri),
    ensures
        reports(references_across(target, Some(f), files, member, true), l) <==> reports(
            references_across(target, Some(f), files, member, false),
            l,
        ) || l == (LocationView { uri, range: f.defs[t].range }),
{
    let d = f.defs[t];
    let decl = LocationView { uri, range: d.range };
    let with = uses_inside(Some(f), member, true);
    let without = uses_inside(Some(f), member, false);
    let among = uses_among(files, target, member);
    law_declaration_adds_itself(f, member, d);
    assert(with =~= seq![decl] + without);
    law_distinct(with + among);
    law_distinct(without + among);
    let (a, b) = (with + among, without + among);
    assert(a =~= seq![decl] + b);
    assert(a.contains(l) <==> b.contains(l) || l == decl) by {
        assert(a[0] == decl);
        if b.contains(l) {
            let j = choose|j: int| 0 <= j < b.len() && b[j] == l;
            assert(a[j + 1] == l);
        }
        if a.contains(l) && l != decl {
            let j = choose|j: int| 0 <= j < a.len() && a[j] == l;
            assert(b[j - 1] == l);
        }
    }
    assert(distinct(a).contains(l) <==> a.contains(l));
    assert(distinct(b).contains(l) <==> b.contains(l));
}

/// The field of a selector is no use of a variable, whatever the variable is
/// called.
pub proof fn law_fields_are_no_uses(source: Seq<char>, ns: Seq<NodeView>, i: int)
    requires
        parent_of(ns, i) matches Some(p) && ns[p].kind == "selector_expression"@ && field_child(
            ns,
            p,
            "field"@,
        ) == Some(i),
    ensures
        !ref_of(source, ns, i).variable,
        forall|f: FileView, name: Seq<char>, d: SymbolView|
            !(#[trigger] means(f, name, d, ref_of(source, ns, i))),
{
}

/// What is left of a list without repetitions keeps its order: a location that
/// came before adds nothing, another one comes last.
pub proof fn law_distinct_in_order(ls: Seq<LocationView>, l: LocationView)
    ensures
        distinct(ls.push(l)) == (if ls.contains(l) {
            distinct(ls)
        } else {
            distinct(ls).push(l)
        }),
{
    law_distinct(ls);
    assert(ls.push(l).drop_last() =~= ls);
    assert(distinct(ls).contains(l) <==> ls.contains(l));
}

proof fn lemma_uses_grow(f: FileView, name: Seq<char>, d: SymbolView, a: int, b: int)
    requires
        0 <= a <= b,
    ensures
        uses_upto(f, name, d, a).len() <= uses_upto(f, name, d, b).len(),
        forall|k: int|
            0 <= k < uses_upto(f, name, d, a).len() ==> #[trigger] uses_upto(f, name, d, b)[k]
                == uses_upto(f, name, d, a)[k],
    decreases b - a,
{
    if a < b {
        lemma_uses_grow(f, name, d, a, b - 1);
        let rest = uses_upto(f, name, d, b - 1);
        let all = uses_upto(f, name, d, b);
        assert forall|k: int|
            0 <= k < uses_upto(f, name, d, a).len() implies #[trigger] all[k] == uses_upto(
            f,
            name,
            d,
            a,
        )[k] by {
            assert(all[k] == rest[k]);
        }
    }
}

/// Two uses that mean a definition are reported in their order, behind the
/// definition.
pub proof fn law_references_in_order(
    f: FileView,
    name: Seq<char>,
    d: SymbolView,
    i: int,
    j: int,
    include_declaration: bool,
)
    requires
        0 <= i < j < f.refs.len(),
        d.scope_id < f.scopes.len(),
        means(f, name, d, f.refs[i]),
        means(f, name, d, f.refs[j]),
    ensures
        include_declaration ==> references_in(f, name, d, include_declaration)[0] == d.range,
        exists|k: int, m: int|
            0 <= k < m < references_in(f, name, d, include_declaration).len()
                && #[trigger] references_in(f, name, d, include_declaration)[k] == f.refs[i].range
                && #[trigger] references_in(f, name, d, include_declaration)[m]
                == f.refs[j].range,
{
    let n = f.refs.len() as int;
    let all = references_in(f, name, d, include_declaration);
    let from = if include_declaration {
        1int
    } else {
        0int
    };
    let k = uses_upto(f, name, d, i).len() as int;
    let m = uses_upto(f, name, d, j).len() as int;
    lemma_uses_grow(f, name, d, i + 1, j);
    lemma_uses_grow(f, name, d, i + 1, n);
    lemma_uses_grow(f, name, d, j + 1, n);
    let uses = uses_upto(f, name, d, n);
    assert(uses[k] == uses_upto(f, name, d, i + 1)[k]);
    assert(uses[m] == uses_upto(f, name, d, j + 1)[m]);
    assert(all[from + k] == uses[k]);
    assert(all[from + m] == uses[m]);
}

} // verus!
