//! Where names lead, said of the nodes at the place that is asked for.

use vstd::prelude::*;
use vstd::string::*;

use crate::definition::artifact_arguments;
use crate::definition::artifact_methods;
use crate::definition::Goal;
use crate::definition::goal_of;
use crate::definition::reached;
use crate::definition::GoalView;
use crate::definition::TargetView;
use crate::document::resolution;
use crate::document::FileView;
use crate::exports::export_entries;
use crate::exports::unquoted;
use crate::exports_laws::keyed;
use crate::exports_laws::lemma_first_entry;
use crate::exports_laws::lemma_no_entry;
use crate::lsp::origin;
use crate::lsp::parsed_url;
use crate::lsp::LocationView;
use crate::lsp::Position;
use crate::places::point_of;
use crate::places::range_of;
use crate::resolver::path_of_uri;
use crate::symbols::import_named;
use crate::syntax::field_child;
use crate::syntax::parent_of;
use crate::syntax::smallest_at;
use crate::syntax::text_of;
use crate::syntax::NodeView;

verus! {

/// Where going to the definition of what stands at `position` leads, given the
/// file of the module that it needs.
pub open spec fn leads_to(f: FileView, position: Position, target: Option<TargetView>) -> Option<
    LocationView,
> {
    match goal_of(f, position) {
        Some(goal) => reached(f, goal, target),
        None => None,
    }
}

/// Whether node `i` with the parent `p` is what stands at `position`.
pub open spec fn at(f: FileView, position: Position, i: int, p: int) -> bool {
    smallest_at(f.tree.nodes, point_of(f.source, position)) == Some(i) && parent_of(
        f.tree.nodes,
        i,
    ) == Some(p)
}

/// Whether the identifier at node `i` with the parent `p` stands on its own: it
/// is not the field of a selector.
pub open spec fn own_name(ns: Seq<NodeView>, i: int, p: int) -> bool {
    ns[i].kind == "identifier"@ && (ns[p].kind == "selector_expression"@ ==> (field_child(
        ns,
        p,
        "field"@,
    ) matches Some(x) && x != i))
}

/// Wherever a name stands that is not the field of a selector and that nothing
/// is imported under, it leads to the definition that it means, in its own
/// file.
pub proof fn law_name_leads_to_its_definition(
    f: FileView,
    position: Position,
    i: int,
    p: int,
    name: Seq<char>,
    uri: Seq<char>,
    target: Option<TargetView>,
)
    requires
        at(f, position, i, p),
        own_name(f.tree.nodes, i, p),
        text_of(f.source, f.tree.nodes[i]) == Some(name),
        import_named(f.imports, name) is None,
        parsed_url(f.uri) == Some(uri),
    ensures
        leads_to(f, position, target) == (match resolution(f, name, f.tree.nodes[i].start_byte) {
            Some(d) => Some((LocationView { uri, range: d.range })),
            None => None,
        }),
{
}

/// The name of an imported module leads to the module's file, and where there
/// is none to its own definition.
pub proof fn law_import_leads_to_its_file(
    f: FileView,
    position: Position,
    i: int,
    p: int,
    name: Seq<char>,
    uri: Seq<char>,
    t: TargetView,
)
    requires
        at(f, position, i, p),
        own_name(f.tree.nodes, i, p),
        text_of(f.source, f.tree.nodes[i]) == Some(name),
        import_named(f.imports, name) is Some,
        path_of_uri(f.uri) is Some,
        parsed_url(f.uri) == Some(uri),
    ensures
        goal_of(f, position) matches Some(GoalView::Alias(m, _, _)) && m == import_named(
            f.imports,
            name,
        )->0.module,
        leads_to(f, position, Some(t)) matches Some(l) && l.uri == t.uri,
        (t.module matches Some(m) ==> forall|h: int, k: int, text: Seq<char>|
            0 <= h < export_entries(m.tree.nodes).len() && #[trigger] keyed(
                m.source,
                m.tree.nodes,
                export_entries(m.tree.nodes)[h],
                k,
                text,
            ) ==> unquoted(text) != ""@) ==> leads_to(f, position, Some(t)) == Some(
            (LocationView { uri: t.uri, range: origin() }),
        ),
        leads_to(f, position, None) == (match resolution(f, name, f.tree.nodes[i].start_byte) {
            Some(d) => Some((LocationView { uri, range: d.range })),
            None => None,
        }),
{
    if let Some(m) = t.module {
        if forall|h: int, k: int, text: Seq<char>|
            0 <= h < export_entries(m.tree.nodes).len() && #[trigger] keyed(
                m.source,
                m.tree.nodes,
                export_entries(m.tree.nodes)[h],
                k,
                text,
            ) ==> unquoted(text) != ""@ {
            lemma_no_entry(m.source, m.tree.nodes, export_entries(m.tree.nodes), ""@);
        }
    }
}

/// In a text that is no file on disk, a name leads to the definition that it
/// means, imported or not; members and strings lead nowhere.
pub proof fn law_without_a_path(
    f: FileView,
    position: Position,
    i: int,
    p: int,
    name: Seq<char>,
    uri: Seq<char>,
    target: Option<TargetView>,
)
    requires
        at(f, position, i, p),
        text_of(f.source, f.tree.nodes[i]) == Some(name),
        path_of_uri(f.uri) is None,
        parsed_url(f.uri) == Some(uri),
    ensures
        leads_to(f, position, target) == (if own_name(f.tree.nodes, i, p) {
            match resolution(f, name, f.tree.nodes[i].start_byte) {
                Some(d) => Some((LocationView { uri, range: d.range })),
                None => None,
            }
        } else {
            None
        }),
{
}

/// Whether node `i` is the field of the selector `p`, and its object is the
/// name `alias`.
pub open spec fn selected(f: FileView, i: int, p: int, alias: Seq<char>) -> bool {
    let ns = f.tree.nodes;
    &&& ns[i].kind == "identifier"@
    &&& ns[p].kind == "selector_expression"@
    &&& field_child(ns, p, "field"@) == Some(i)
    &&& field_child(ns, p, "object"@) matches Some(o) && ns[o].kind == "identifier"@ && text_of(
        f.source,
        ns[o],
    ) == Some(alias)
}

/// A member of an imported module leads to the first key that the module
/// exports under its name.
pub proof fn law_member_leads_to_first_key(
    f: FileView,
    position: Position,
    i: int,
    p: int,
    alias: Seq<char>,
    name: Seq<char>,
    t: TargetView,
    m: FileView,
    e: int,
    k: int,
    text: Seq<char>,
)
    requires
        at(f, position, i, p),
        selected(f, i, p, alias),
        text_of(f.source, f.tree.nodes[i]) == Some(name),
        import_named(f.imports, alias) is Some,
        path_of_uri(f.uri) is Some,
        t.module == Some(m),
        0 <= e < export_entries(m.tree.nodes).len(),
        keyed(m.source, m.tree.nodes, export_entries(m.tree.nodes)[e], k, text),
        unquoted(text) == name,
        forall|h: int, k: int, text: Seq<char>|
            0 <= h < e && #[trigger] keyed(
                m.source,
                m.tree.nodes,
                export_entries(m.tree.nodes)[h],
                k,
                text,
            ) ==> unquoted(text) != name,
    ensures
        goal_of(f, position) == Some(
            GoalView::Member(import_named(f.imports, alias)->0.module, name),
        ),
        leads_to(f, position, Some(t)) == Some(
            (LocationView { uri: t.uri, range: range_of(m.source, m.tree.nodes[k]) }),
        ),
{
    lemma_first_entry(m.source, m.tree.nodes, export_entries(m.tree.nodes), name, e, k, text);
}

/// A member that the module does not export leads to the top of the module's
/// file; without the file it leads nowhere.
pub proof fn law_unknown_member_leads_to_the_file(
    f: FileView,
    position: Position,
    i: int,
    p: int,
    alias: Seq<char>,
    name: Seq<char>,
    t: TargetView,
)
    requires
        at(f, position, i, p),
        selected(f, i, p, alias),
        text_of(f.source, f.tree.nodes[i]) == Some(name),
        import_named(f.imports, alias) is Some,
        path_of_uri(f.uri) is Some,
        t.module matches Some(m) ==> forall|h: int, k: int, text: Seq<char>|
            0 <= h < export_entries(m.tree.nodes).len() && #[trigger] keyed(
                m.source,
                m.tree.nodes,
                export_entries(m.tree.nodes)[h],
                k,
                text,
            ) ==> unquoted(text) != name,
    ensures
        leads_to(f, position, Some(t)) == Some((LocationView { uri: t.uri, range: origin() })),
        leads_to(f, position, None) is None,
{
    if let Some(m) = t.module {
        lemma_no_entry(m.source, m.tree.nodes, export_entries(m.tree.nodes), name);
    }
}

/// The field of anything but an imported module leads nowhere.
pub proof fn law_other_fields_lead_nowhere(
    f: FileView,
    position: Position,
    i: int,
    p: int,
    target: Option<TargetView>,
)
    requires
        at(f, position, i, p),
        f.tree.nodes[i].kind == "identifier"@,
        f.tree.nodes[p].kind == "selector_expression"@,
        field_child(f.tree.nodes, p, "field"@) == Some(i),
        forall|alias: Seq<char>| #[trigger]
            selected(f, i, p, alias) ==> import_named(f.imports, alias) is None,
    ensures
        leads_to(f, position, target) is None,
{
    if let Some(o) = field_child(f.tree.nodes, p, "object"@) {
        if let Some(alias) = text_of(f.source, f.tree.nodes[o]) {
            if f.tree.nodes[o].kind == "identifier"@ {
                assert(selected(f, i, p, alias));
            }
        }
    }
}

/// Whether node `a` holds the arguments of a call of the method `name`.
pub open spec fn arguments_of(f: FileView, a: int, name: Seq<char>) -> bool {
    let ns = f.tree.nodes;
    &&& ns[a].kind == "argument_list"@
    &&& parent_of(ns, a) matches Some(c) && ns[c].kind == "call_expression"@ && (field_child(
        ns,
        c,
        "function"@,
    ) matches Some(m) && ns[m].kind == "selector_expression"@ && (field_child(
        ns,
        m,
        "field"@,
    ) matches Some(x) && text_of(f.source, ns[x]) == Some(name)))
}

/// Whether the method `name` takes the name of an artifact.
pub open spec fn takes_artifact(name: Seq<char>) -> bool {
    ||| name == "getTemplateId"@
    ||| name == "getSoftwareInfo"@
    ||| name == "importTemplate"@
    ||| name == "importSoftware"@
    ||| name == "importAsset"@
}

proof fn lemma_takes_artifact(name: Seq<char>)
    ensures
        artifact_methods().contains(name) <==> takes_artifact(name),
{
    let all = artifact_methods();
    assert(all[0] == "getTemplateId"@ && all[1] == "getSoftwareInfo"@ && all[2]
        == "importTemplate"@ && all[3] == "importSoftware"@ && all[4] == "importAsset"@);
    if all.contains(name) {
        let k = choose|k: int| 0 <= k < all.len() && all[k] == name;
        assert(k == 0 || k == 1 || k == 2 || k == 3 || k == 4);
    }
}

/// A string leads to the file of the module or artifact that it names, where it
/// is what an import takes or the argument of one of the methods that take an
/// artifact, whatever they are called on; any other string leads nowhere.
pub proof fn law_strings(
    f: FileView,
    position: Position,
    i: int,
    p: int,
    text: Seq<char>,
    t: TargetView,
)
    requires
        at(f, position, i, p),
        f.tree.nodes[i].kind == "string_literal"@,
        text_of(f.source, f.tree.nodes[i]) == Some(text),
        path_of_uri(f.uri) is Some,
    ensures
        f.tree.nodes[p].kind == "import_expression"@ || (exists|name: Seq<char>| #[trigger]
            arguments_of(f, p, name) && takes_artifact(name)) ==> goal_of(f, position) == Some(
            GoalView::File(unquoted(text)),
        ) && leads_to(f, position, Some(t)) == Some((LocationView { uri: t.uri, range: origin() }))
            && leads_to(f, position, None) is None,
        !(f.tree.nodes[p].kind == "import_expression"@ || (exists|name: Seq<char>| #[trigger]
            arguments_of(f, p, name) && takes_artifact(name))) ==> leads_to(f, position, Some(t)) is None
            && leads_to(f, position, None) is None,
{
    reveal_strlit("string_literal");
    reveal_strlit("identifier");
    assert("string_literal"@.len() != "identifier"@.len());
    if artifact_arguments(f, p) {
        let c = parent_of(f.tree.nodes, p)->0;
        let m = field_child(f.tree.nodes, c, "function"@)->0;
        let x = field_child(f.tree.nodes, m, "field"@)->0;
        let name = text_of(f.source, f.tree.nodes[x])->0;
        lemma_takes_artifact(name);
        assert(arguments_of(f, p, name));
    }
    if exists|name: Seq<char>| #[trigger] arguments_of(f, p, name) && takes_artifact(name) {
        let name = choose|name: Seq<char>| #[trigger]
            arguments_of(f, p, name) && takes_artifact(name);
        lemma_takes_artifact(name);
        assert(artifact_arguments(f, p));
    }
}

/// Nothing but names and strings leads anywhere.
pub proof fn law_other_nodes_lead_nowhere(
    f: FileView,
    position: Position,
    target: Option<TargetView>,
)
    requires
        smallest_at(f.tree.nodes, point_of(f.source, position)) matches Some(i)
            ==> f.tree.nodes[i].kind != "identifier"@ && f.tree.nodes[i].kind
            != "string_literal"@,
    ensures
        leads_to(f, position, target) is None,
{
}

/// The top of a file is its first character.
pub proof fn law_top_of_file()
    ensures
        origin().start.line == 0 && origin().start.character == 0 && origin().end == origin().start,
{
}

/// The module that has to be looked for is the one that the goal names; for a
/// name of the own file there is none.
pub proof fn law_goal_needs(g: Goal)
    ensures
        match g@ {
            GoalView::File(m) => g.needs() == Some(m),
            GoalView::Member(m, _) => g.needs() == Some(m),
            GoalView::Alias(m, _, _) => g.needs() == Some(m),
            GoalView::Local(_, _) => g.needs() is None,
        },
{
}

} // verus!
