//! Going to definitions.

use vstd::prelude::*;
use vstd::string::*;

use crate::document::resolution;
use crate::document::FileState;
use crate::document::FileView;
use crate::exports::export_key;
use crate::exports::export_member_range_with_tree;
use crate::exports::unquote;
use crate::exports::unquoted;
use crate::lsp::origin;
use crate::lsp::parse_url;
use crate::lsp::parsed_url;
use crate::lsp::Location;
use crate::lsp::LocationView;
use crate::lsp::Position;
use crate::lsp::Range;
use crate::places::point_of;
use crate::places::to_point;
use crate::resolver::path_of_uri;
use crate::resolver::uri_to_path;
use crate::symbols::import_named;
use crate::syntax::field_child;
use crate::syntax::parent_of;
use crate::syntax::smallest_at;
use crate::syntax::text_of;
use crate::text::is_one_of;
use crate::text::string;

verus! {

/// The methods whose argument names an artifact as an import does, whatever
/// they are called on.
pub open spec fn artifact_methods() -> Seq<Seq<char>> {
    seq![
        "getTemplateId"@,
        "getSoftwareInfo"@,
        "importTemplate"@,
        "importSoftware"@,
        "importAsset"@,
    ]
}

/// Whether node `a` is the argument list of a call of such a method.
pub open spec fn artifact_arguments(f: FileView, a: int) -> bool {
    let ns = f.tree.nodes;
    &&& ns[a].kind == "argument_list"@
    &&& parent_of(ns, a) matches Some(c) && ns[c].kind == "call_expression"@ && (field_child(
        ns,
        c,
        "function"@,
    ) matches Some(m) && ns[m].kind == "selector_expression"@ && (field_child(
        ns,
        m,
        "field"@,
    ) matches Some(x) && (text_of(f.source, ns[x]) matches Some(name) && artifact_methods().contains(
        name,
    ))))
}

/// What leads to the definition of something.
#[derive(Debug)]
pub enum Goal {
    /// The file of the module.
    File(String),
    /// A member of the module.
    Member(String, String),
    /// The file of the module, or else what the name means at the place.
    Alias(String, String, usize),
    /// What the name means at the place.
    Local(String, usize),
}

/// What a [`Goal`] holds.
pub enum GoalView {
    File(Seq<char>),
    Member(Seq<char>, Seq<char>),
    Alias(Seq<char>, Seq<char>, usize),
    Local(Seq<char>, usize),
}

impl View for Goal {
    type V = GoalView;

    open spec fn view(&self) -> GoalView {
        match self {
            Goal::File(m) => GoalView::File(m@),
            Goal::Member(m, n) => GoalView::Member(m@, n@),
            Goal::Alias(m, n, b) => GoalView::Alias(m@, n@, *b),
            Goal::Local(n, b) => GoalView::Local(n@, *b),
        }
    }
}

impl Goal {
    /// The module that has to be looked for.
    pub open spec fn needs(&self) -> Option<Seq<char>> {
        match self@ {
            GoalView::File(m) => Some(m),
            GoalView::Member(m, _) => Some(m),
            GoalView::Alias(m, _, _) => Some(m),
            GoalView::Local(_, _) => None,
        }
    }

    /// The module that has to be looked for.
    pub fn module(&self) -> (r: Option<&str>)
        ensures
            self.needs() == (match r {
                Some(m) => Some(m@),
                None => None,
            }),
    {
        match self {
            Goal::File(m) => Some(m.as_str()),
            Goal::Member(m, _) => Some(m.as_str()),
            Goal::Alias(m, _, _) => Some(m.as_str()),
            Goal::Local(_, _) => None,
        }
    }
}

/// The goal of the string at node `i`: it must be what an import or a call of
/// an artifact method names.
pub open spec fn string_goal(f: FileView, i: int) -> Option<GoalView> {
    let ns = f.tree.nodes;
    match (parent_of(ns, i), text_of(f.source, ns[i])) {
        (Some(p), Some(text)) => if (ns[p].kind == "import_expression"@ || artifact_arguments(f, p))
            && path_of_uri(f.uri) is Some {
            Some(GoalView::File(unquoted(text)))
        } else {
            None
        },
        _ => None,
    }
}

/// The goal of the identifier at node `i` as the field of the selector at
/// node `p`: a member of an imported module, or nothing.
pub open spec fn field_goal(f: FileView, p: int, name: Seq<char>) -> Option<GoalView> {
    let ns = f.tree.nodes;
    match field_child(ns, p, "object"@) {
        Some(o) => if ns[o].kind == "identifier"@ {
            match text_of(f.source, ns[o]) {
                Some(alias) => match import_named(f.imports, alias) {
                    Some(m) => if path_of_uri(f.uri) is Some {
                        Some(GoalView::Member(m.module, name))
                    } else {
                        None
                    },
                    None => None,
                },
                None => None,
            }
        } else {
            None
        },
        None => None,
    }
}

/// The goal of the name at node `i` on its own: the module that it stands
/// for, or what it means.
pub open spec fn name_goal(f: FileView, i: int, name: Seq<char>) -> GoalView {
    let at = f.tree.nodes[i].start_byte;
    match import_named(f.imports, name) {
        Some(m) => if path_of_uri(f.uri) is Some {
            GoalView::Alias(m.module, name, at)
        } else {
            GoalView::Local(name, at)
        },
        None => GoalView::Local(name, at),
    }
}

/// The goal of the identifier at node `i`.
pub open spec fn identifier_goal(f: FileView, i: int) -> Option<GoalView> {
    let ns = f.tree.nodes;
    match (parent_of(ns, i), text_of(f.source, ns[i])) {
        (Some(p), Some(name)) => if ns[p].kind == "selector_expression"@ {
            match field_child(ns, p, "field"@) {
                Some(x) => if x == i {
                    field_goal(f, p, name)
                } else {
                    Some(name_goal(f, i, name))
                },
                None => None,
            }
        } else {
            Some(name_goal(f, i, name))
        },
        _ => None,
    }
}

/// The goal of what stands at `position`.
pub open spec fn goal_of(f: FileView, position: Position) -> Option<GoalView> {
    match smallest_at(f.tree.nodes, point_of(f.source, position)) {
        Some(i) => if f.tree.nodes[i].kind == "identifier"@ {
            identifier_goal(f, i)
        } else if f.tree.nodes[i].kind == "string_literal"@ {
            string_goal(f, i)
        } else {
            None
        },
        None => None,
    }
}

/// The file of a module.
#[derive(Debug)]
pub struct Target {
    pub uri: String,
    /// The module itself, where it could be read.
    pub module: Option<FileState>,
}

/// What a [`Target`] holds.
pub struct TargetView {
    pub uri: Seq<char>,
    pub module: Option<FileView>,
}

impl View for Target {
    type V = TargetView;

    open spec fn view(&self) -> TargetView {
        TargetView {
            uri: self.uri@,
            module: match self.module {
                Some(m) => Some(m@),
                None => None,
            },
        }
    }
}

/// Where a member stands in the file of its module; the top of the file where
/// it is not found.
pub open spec fn member_place(t: TargetView, member: Seq<char>) -> LocationView {
    let range = match t.module {
        Some(m) => match export_key(m.source, m.tree, member) {
            Some(r) => r,
            None => origin(),
        },
        None => origin(),
    };
    LocationView { uri: t.uri, range }
}

/// Where the definition stands that `name` means at `byte`.
pub open spec fn local_definition(f: FileView, name: Seq<char>, byte: usize) -> Option<LocationView> {
    match (resolution(f, name, byte), parsed_url(f.uri)) {
        (Some(d), Some(uri)) => Some(LocationView { uri, range: d.range }),
        _ => None,
    }
}

/// Where the goal leads, given the file of the module that it needs.
pub open spec fn reached(f: FileView, goal: GoalView, target: Option<TargetView>) -> Option<
    LocationView,
> {
    match (goal, target) {
        (GoalView::File(_), Some(t)) => Some(LocationView { uri: t.uri, range: origin() }),
        (GoalView::File(_), None) => None,
        (GoalView::Member(_, name), Some(t)) => Some(member_place(t, name)),
        (GoalView::Member(_, _), None) => None,
        (GoalView::Alias(_, _, _), Some(t)) => Some(member_place(t, ""@)),
        (GoalView::Alias(_, name, byte), None) => local_definition(f, name, byte),
        (GoalView::Local(name, byte), _) => local_definition(f, name, byte),
    }
}

/// The view of an optional location.
pub open spec fn location_view(l: Option<Location>) -> Option<LocationView> {
    match l {
        Some(x) => Some(x@),
        None => None,
    }
}

/// Whatever a name is imported as, going to the definition of one of its
/// members leads into the module's file: to the key that exports the member,
/// or to the top of the file.
pub proof fn law_member_leads_to_its_key(
    f: FileView,
    module: Seq<char>,
    member: Seq<char>,
    t: TargetView,
)
    ensures
        reached(f, GoalView::Member(module, member), Some(t)) matches Some(l) && l.uri == t.uri && (
        l.range == origin() || (t.module matches Some(m) && export_key(m.source, m.tree, member)
            == Some(l.range))),
        t.module matches Some(m) ==> (export_key(m.source, m.tree, member) matches Some(r) ==> reached(
            f,
            GoalView::Member(module, member),
            Some(t),
        ) == Some((LocationView { uri: t.uri, range: r }))),
{
}

/// The name of an imported module leads to the module's file wherever there is
/// one, not to its own declaration.
pub proof fn law_alias_leads_to_its_file(
    f: FileView,
    module: Seq<char>,
    name: Seq<char>,
    byte: usize,
    t: TargetView,
)
    ensures
        reached(f, GoalView::Alias(module, name, byte), Some(t)) matches Some(l) && l.uri == t.uri,
        reached(f, GoalView::Alias(module, name, byte), None) == reached(
            f,
            GoalView::Local(name, byte),
            None,
        ),
{
}

/// Whether `name` is that of an artifact method.
fn is_artifact_method(name: &str) -> (r: bool)
    ensures
        r == artifact_methods().contains(name@),
{
    let words = [
        "getTemplateId",
        "getSoftwareInfo",
        "importTemplate",
        "importSoftware",
        "importAsset",
    ];
    proof {
        let names = artifact_methods();
        assert forall|i: int| 0 <= i < names.len() implies #[trigger] names[i] == words@[i]@ by {}
        if names.contains(name@) {
            let i = choose|i: int| 0 <= i < names.len() && names[i] == name@;
            assert(words@[i]@ == name@);
        }
        assert forall|i: int| 0 <= i < words@.len() && (#[trigger] words@[i])@ == name@ implies
            names.contains(name@) by {
            assert(names[i] == name@);
        }
    }
    is_one_of(name, &words)
}

/// Whether node `a` is the argument list of a call of an artifact method.
fn is_artifact_call_argument(state: &FileState, a: usize) -> (r: bool)
    requires
        state.tree.has(a),
    ensures
        r == artifact_arguments(state@, a as int),
{
    let tree = &state.tree;
    if !tree.is(a, "argument_list") {
        return false;
    }
    let c = match tree.parent(a) {
        Some(c) => c,
        None => {
            return false;
        },
    };
    if !tree.is(c, "call_expression") {
        return false;
    }
    let m = match tree.child_by_field_name(c, "function") {
        Some(m) => m,
        None => {
            return false;
        },
    };
    if !tree.is(m, "selector_expression") {
        return false;
    }
    let x = match tree.child_by_field_name(m, "field") {
        Some(x) => x,
        None => {
            return false;
        },
    };
    match tree.text(state.source.as_str(), x) {
        Some(name) => is_artifact_method(name),
        None => false,
    }
}

/// The goal of the string at node `i`.
fn handle_import_string(state: &FileState, i: usize) -> (r: Option<Goal>)
    requires
        state.tree.has(i),
    ensures
        string_goal(state@, i as int) == (match r {
            Some(g) => Some(g@),
            None => None,
        }),
{
    let p = match state.tree.parent(i) {
        Some(p) => p,
        None => {
            return None;
        },
    };
    let text = match state.tree.text(state.source.as_str(), i) {
        Some(t) => t,
        None => {
            return None;
        },
    };
    if !state.tree.is(p, "import_expression") && !is_artifact_call_argument(state, p) {
        return None;
    }
    if uri_to_path(state.uri.as_str()).is_none() {
        return None;
    }
    Some(Goal::File(string(&unquote(text))))
}

/// The goal of the field `name` of the selector at node `p`.
fn find_field_goal(state: &FileState, p: usize, name: &str) -> (r: Option<Goal>)
    requires
        state.tree.has(p),
    ensures
        field_goal(state@, p as int, name@) == (match r {
            Some(g) => Some(g@),
            None => None,
        }),
{
    let o = match state.tree.child_by_field_name(p, "object") {
        Some(o) => o,
        None => {
            return None;
        },
    };
    if !state.tree.is(o, "identifier") {
        return None;
    }
    let alias = match state.tree.text(state.source.as_str(), o) {
        Some(t) => t,
        None => {
            return None;
        },
    };
    match state.import(alias) {
        Some(m) => if uri_to_path(state.uri.as_str()).is_some() {
            Some(Goal::Member(m.module.clone(), name.to_string()))
        } else {
            None
        },
        None => None,
    }
}

/// The goal of the identifier at node `i`.
fn find_identifier_goal(state: &FileState, i: usize) -> (r: Option<Goal>)
    requires
        state.tree.has(i),
    ensures
        identifier_goal(state@, i as int) == (match r {
            Some(g) => Some(g@),
            None => None,
        }),
{
    let tree = &state.tree;
    let p = match tree.parent(i) {
        Some(p) => p,
        None => {
            return None;
        },
    };
    let name = match tree.text(state.source.as_str(), i) {
        Some(t) => t,
        None => {
            return None;
        },
    };
    if tree.is(p, "selector_expression") {
        match tree.child_by_field_name(p, "field") {
            Some(x) => {
                if x == i {
                    return find_field_goal(state, p, name);
                }
            },
            None => {
                return None;
            },
        }
    }
    let at = tree.nodes[i].start_byte;
    match state.import(name) {
        Some(m) => if uri_to_path(state.uri.as_str()).is_some() {
            Some(Goal::Alias(m.module.clone(), name.to_string(), at))
        } else {
            Some(Goal::Local(name.to_string(), at))
        },
        None => Some(Goal::Local(name.to_string(), at)),
    }
}

/// What leads to the definition of what stands at `position`.
pub fn definition_goal(state: &FileState, position: Position) -> (r: Option<Goal>)
    ensures
        goal_of(state@, position) == (match r {
            Some(g) => Some(g@),
            None => None,
        }),
{
    let i = match state.tree.node_at(to_point(state.source.as_str(), position)) {
        Some(i) => i,
        None => {
            return None;
        },
    };
    if state.tree.is(i, "identifier") {
        find_identifier_goal(state, i)
    } else if state.tree.is(i, "string_literal") {
        handle_import_string(state, i)
    } else {
        None
    }
}

/// Where a member stands in the file of its module.
fn jump_to_import_member(target: &Target, member: &str) -> (r: Location)
    ensures
        r@ == member_place(target@, member@),
{
    let found = match &target.module {
        Some(m) => export_member_range_with_tree(m.source.as_str(), &m.tree, member),
        None => None,
    };
    let range = match found {
        Some(x) => x,
        None => Range::new(Position::new(0, 0), Position::new(0, 0)),
    };
    Location { uri: target.uri.clone(), range }
}

/// Where the definition stands that `name` means at `byte`.
fn jump_to_local(state: &FileState, name: &str, byte: usize) -> (r: Option<Location>)
    requires
        state.wf(),
    ensures
        location_view(r) == local_definition(state@, name@, byte),
{
    let range = match state.resolve_def(name, byte) {
        Some(d) => d.range,
        None => {
            return None;
        },
    };
    match parse_url(state.uri.as_str()) {
        Some(uri) => Some(Location { uri, range }),
        None => None,
    }
}

/// Where the definition stands of what is at `position`. `target` is the file
/// of the module that has to be looked for, where it was found.
pub fn goto_definition(state: &FileState, position: Position, target: Option<&Target>) -> (r: Option<
    Location,
>)
    requires
        state.wf(),
    ensures
        location_view(r) == (match goal_of(state@, position) {
            Some(goal) => reached(
                state@,
                goal,
                match target {
                    Some(t) => Some(t@),
                    None => None,
                },
            ),
            None => None,
        }),
{
    let goal = match definition_goal(state, position) {
        Some(g) => g,
        None => {
            return None;
        },
    };
    match (goal, target) {
        (Goal::File(_), Some(t)) => {
            let range = Range::new(Position::new(0, 0), Position::new(0, 0));
            Some(Location { uri: t.uri.clone(), range })
        },
        (Goal::File(_), None) => None,
        (Goal::Member(_, name), Some(t)) => Some(jump_to_import_member(t, name.as_str())),
        (Goal::Member(_, _), None) => None,
        (Goal::Alias(_, _, _), Some(t)) => Some(jump_to_import_member(t, "")),
        (Goal::Alias(_, name, byte), None) => jump_to_local(state, name.as_str(), byte),
        (Goal::Local(name, byte), _) => jump_to_local(state, name.as_str(), byte),
    }
}

} // verus!
