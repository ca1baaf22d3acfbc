//! Finding references: within a file, and across the files that import it.

use vstd::prelude::*;
use vstd::string::*;

use crate::document::resolution;
use crate::document::FileState;
use crate::document::FileView;
use crate::exports::entries;
use crate::exports::entry_key;
use crate::exports::export_map;
use crate::exports::exported;
use crate::exports::exports_itself;
use crate::exports::exports_itself_with_tree;
use crate::exports::exports_with_tree;
use crate::exports::find_export_map;
use crate::exports::find_key;
use crate::exports::members_view;
use crate::exports::ExportMember;
use crate::exports::ExportView;
use crate::lsp::located;
use crate::lsp::locations_view;
use crate::lsp::parse_url;
use crate::lsp::parsed_url;
use crate::lsp::push_located;
use crate::lsp::Location;
use crate::lsp::LocationView;
use crate::lsp::Position;
use crate::lsp::Range;
use crate::places::point_of;
use crate::places::range_of;
use crate::places::to_point;
use crate::places::Places;
use crate::resolver::path_of_uri;
use crate::resolver::uri_to_path;
use crate::symbols::import_named;
use crate::symbols::is_variable;
use crate::symbols::names_variable;
use crate::symbols::RefView;
use crate::symbols::Symbol;
use crate::symbols::SymbolView;
use crate::syntax::field_child;
use crate::syntax::index;
use crate::syntax::parent_of;
use crate::syntax::smallest_at;
use crate::syntax::text_of;
use crate::syntax::NodeView;
use crate::syntax::SyntaxTree;
use crate::text::same_str;

verus! {

/// The identifier at `position`.
pub open spec fn identifier_node(f: FileView, position: Position) -> Option<int> {
    match smallest_at(f.tree.nodes, point_of(f.source, position)) {
        Some(i) => if f.tree.nodes[i].kind == "identifier"@ {
            Some(i)
        } else {
            None
        },
        None => None,
    }
}

/// The object of the selector whose field is node `i`, where the object is an
/// identifier.
pub open spec fn selected_from(ns: Seq<NodeView>, i: int) -> Option<int> {
    match parent_of(ns, i) {
        Some(p) => if ns[p].kind == "selector_expression"@ && field_child(ns, p, "field"@) == Some(i) {
            match field_child(ns, p, "object"@) {
                Some(o) => if ns[o].kind == "identifier"@ {
                    Some(o)
                } else {
                    None
                },
                None => None,
            }
        } else {
            None
        },
        None => None,
    }
}

/// The module that is imported under the name that node `i` is selected from.
pub open spec fn selected_module(f: FileView, i: int) -> Option<Seq<char>> {
    match selected_from(f.tree.nodes, i) {
        Some(o) => match text_of(f.source, f.tree.nodes[o]) {
            Some(alias) => match import_named(f.imports, alias) {
                Some(m) => Some(m.module),
                None => None,
            },
            None => None,
        },
        None => None,
    }
}

/// Whether a definition stands at the top level of its file.
pub open spec fn top_level(f: FileView, d: SymbolView) -> bool {
    d.scope_id < f.scopes.len() && f.scopes[d.scope_id as int].parent is None
}

/// Whether node `i` is a key of the map that the file exports.
pub open spec fn on_export_key(ns: Seq<NodeView>, i: int) -> bool {
    match parent_of(ns, i) {
        Some(e) => entry_key(ns, e) == Some(i) && parent_of(ns, e) is Some && parent_of(ns, e)
            == export_map(ns),
        None => false,
    }
}

/// Whether some member is called `name`.
pub open spec fn has_member(ms: Seq<ExportView>, name: Seq<char>) -> bool {
    exists|i: int| 0 <= i < ms.len() && (#[trigger] ms[i]).name == name
}

/// Whether the identifier `name` at node `i` stands for a member that its own
/// file exports: it is the key of the export, or a variable that the file
/// exports as `name: name`, or one that is defined nowhere in the file. A local
/// name that merely shadows an export does not stand for it, nor does a
/// top-level name that the file exports something else under.
pub open spec fn own_member(f: FileView, i: int, name: Seq<char>) -> bool {
    &&& has_member(exported(f.source, f.tree), name)
    &&& on_export_key(f.tree.nodes, i) || (names_variable(f.source, f.tree.nodes, i) && match resolution(
        f,
        name,
        f.tree.nodes[i].start_byte,
    ) {
        Some(d) => top_level(f, d) && exports_itself(f.source, f.tree, name),
        None => true,
    })
}

/// Whose member a name is.
#[derive(Debug)]
pub enum Owner {
    /// Nobody's: the name is known within its file only.
    Local,
    /// The own file's, which exports it.
    Own,
    /// That of the imported module.
    Module(String),
}

/// What an [`Owner`] holds.
pub enum OwnerView {
    Local,
    Own,
    Module(Seq<char>),
}

impl View for Owner {
    type V = OwnerView;

    open spec fn view(&self) -> OwnerView {
        match self {
            Owner::Local => OwnerView::Local,
            Owner::Own => OwnerView::Own,
            Owner::Module(m) => OwnerView::Module(m@),
        }
    }
}

/// A name that references are looked for of.
#[derive(Debug)]
pub struct Subject {
    pub name: String,
    /// Where the name stands.
    pub byte: usize,
    /// Whether it stands for a variable there.
    pub variable: bool,
    pub owner: Owner,
}

/// What a [`Subject`] holds.
pub struct SubjectView {
    pub name: Seq<char>,
    pub byte: usize,
    pub variable: bool,
    pub owner: OwnerView,
}

impl View for Subject {
    type V = SubjectView;

    open spec fn view(&self) -> SubjectView {
        SubjectView {
            name: self.name@,
            byte: self.byte,
            variable: self.variable,
            owner: self.owner@,
        }
    }
}

/// Whose member the identifier `name` at node `i` is. Only a file on disk has
/// members that others know.
pub open spec fn owner_of(f: FileView, i: int, name: Seq<char>) -> OwnerView {
    if path_of_uri(f.uri) is None {
        OwnerView::Local
    } else {
        match selected_module(f, i) {
            Some(m) => OwnerView::Module(m),
            None => if own_member(f, i, name) {
                OwnerView::Own
            } else {
                OwnerView::Local
            },
        }
    }
}

/// The name at `position`.
pub open spec fn subject_of(f: FileView, position: Position) -> Option<SubjectView> {
    match identifier_node(f, position) {
        Some(i) => match text_of(f.source, f.tree.nodes[i]) {
            Some(name) => Some(
                SubjectView {
                    name,
                    byte: f.tree.nodes[i].start_byte,
                    variable: names_variable(f.source, f.tree.nodes, i),
                    owner: owner_of(f, i, name),
                },
            ),
            None => None,
        },
        None => None,
    }
}

/// Whether the use `r` of `name` means the definition `d`: it stands for a
/// variable, lies in the scope of `d`, not before it, and no inner definition
/// hides `d` from it.
pub open spec fn means(f: FileView, name: Seq<char>, d: SymbolView, r: RefView) -> bool {
    let at = r.byte_range.start;
    &&& r.variable
    &&& r.name == name
    &&& f.scopes[d.scope_id as int].holds(at)
    &&& at >= d.byte_range.start
    &&& resolution(f, name, at) matches Some(x) && x.byte_range.start == d.byte_range.start
}

/// The first `n` uses of `name` that mean the definition `d`.
pub open spec fn uses_upto(f: FileView, name: Seq<char>, d: SymbolView, n: int) -> Seq<Range>
    decreases n,
{
    if n <= 0 {
        seq![]
    } else if means(f, name, d, f.refs[n - 1]) {
        uses_upto(f, name, d, n - 1).push(f.refs[n - 1].range)
    } else {
        uses_upto(f, name, d, n - 1)
    }
}

/// The references to the definition `d` of `name` in its file.
pub open spec fn references_in(
    f: FileView,
    name: Seq<char>,
    d: SymbolView,
    include_declaration: bool,
) -> Seq<Range> {
    if d.scope_id >= f.scopes.len() {
        seq![]
    } else {
        (if include_declaration {
            seq![d.range]
        } else {
            seq![]
        }) + uses_upto(f, name, d, f.refs.len() as int)
    }
}

/// Those references as locations: none where the file's address is none.
pub open spec fn references_at(
    f: FileView,
    name: Seq<char>,
    d: SymbolView,
    include_declaration: bool,
) -> Seq<LocationView> {
    match parsed_url(f.uri) {
        Some(uri) => located(uri, references_in(f, name, d, include_declaration)),
        None => seq![],
    }
}

/// The list, where it is not empty.
pub open spec fn unless_empty(ls: Seq<LocationView>) -> Option<Seq<LocationView>> {
    if ls.len() == 0 {
        None
    } else {
        Some(ls)
    }
}

/// The references in its own file to the variable that `name` means at
/// `byte`.
pub open spec fn references_here(
    f: FileView,
    name: Seq<char>,
    byte: usize,
    include_declaration: bool,
) -> Option<Seq<LocationView>> {
    match resolution(f, name, byte) {
        Some(d) => unless_empty(references_at(f, name, d, include_declaration)),
        None => None,
    }
}

/// The first top-level definition of `name`, among those from `from` on.
pub open spec fn top_from(f: FileView, name: Seq<char>, from: int) -> Option<int>
    decreases f.defs.len() - from,
{
    if from >= f.defs.len() {
        None
    } else if f.defs[from].name == name && top_level(f, f.defs[from]) {
        Some(from)
    } else {
        top_from(f, name, from + 1)
    }
}

/// Whether node `i` selects `member` from the identifier `alias`.
pub open spec fn selects(
    source: Seq<char>,
    ns: Seq<NodeView>,
    i: int,
    alias: Seq<char>,
    member: Seq<char>,
) -> bool {
    &&& ns[i].kind == "selector_expression"@
    &&& field_child(ns, i, "object"@) matches Some(o) && ns[o].kind == "identifier"@ && text_of(
        source,
        ns[o],
    ) == Some(alias)
    &&& field_child(ns, i, "field"@) matches Some(x) && text_of(source, ns[x]) == Some(member)
}

/// Where the first `n` nodes select `member` from `alias`.
pub open spec fn selections_upto(
    source: Seq<char>,
    ns: Seq<NodeView>,
    alias: Seq<char>,
    member: Seq<char>,
    n: int,
) -> Seq<Range>
    decreases n,
{
    if n <= 0 {
        seq![]
    } else {
        let rest = selections_upto(source, ns, alias, member, n - 1);
        if selects(source, ns, n - 1, alias, member) {
            rest.push(range_of(source, ns[field_child(ns, n - 1, "field"@)->0]))
        } else {
            rest
        }
    }
}

/// Where a file selects `member` from `alias`.
pub open spec fn selections(f: FileView, alias: Seq<char>, member: Seq<char>) -> Seq<LocationView> {
    located(
        f.uri,
        selections_upto(f.source, f.tree.nodes, alias, member, f.tree.nodes.len() as int),
    )
}

/// A file of the workspace, with what its imports resolve to.
#[derive(Debug)]
pub struct ScannedFile {
    /// The canonical path of the file.
    pub path: String,
    pub state: FileState,
    /// For each import of the file, in order, the canonical path of the file
    /// that it names.
    pub targets: Vec<Option<String>>,
}

/// What a [`ScannedFile`] holds.
pub struct ScannedView {
    pub path: Seq<char>,
    pub state: FileView,
    pub targets: Seq<Option<Seq<char>>>,
}

impl View for ScannedFile {
    type V = ScannedView;

    open spec fn view(&self) -> ScannedView {
        ScannedView {
            path: self.path@,
            state: self.state@,
            targets: self.targets@.map_values(|t: Option<String>| crate::text::opt_view(t)),
        }
    }
}

pub open spec fn scanned_view(v: Seq<ScannedFile>) -> Seq<ScannedView> {
    v.map_values(|s: ScannedFile| s@)
}

/// Where a file uses `member` of the module at `target`, through its first `n`
/// imports.
pub open spec fn uses_through(
    s: ScannedView,
    target: Seq<char>,
    member: Seq<char>,
    n: int,
) -> Seq<LocationView>
    decreases n,
{
    if n <= 0 {
        seq![]
    } else {
        let rest = uses_through(s, target, member, n - 1);
        if n - 1 < s.targets.len() && s.targets[n - 1] == Some(target) {
            rest + selections(s.state, s.state.imports[n - 1].var_name, member)
        } else {
            rest
        }
    }
}

/// Where a file other than the module at `target` uses its `member`.
pub open spec fn uses_in(s: ScannedView, target: Seq<char>, member: Seq<char>) -> Seq<LocationView> {
    if s.path == target {
        seq![]
    } else {
        uses_through(s, target, member, s.state.imports.len() as int)
    }
}

/// Where the files use `member` of the module at `target`.
pub open spec fn uses_among(files: Seq<ScannedView>, target: Seq<char>, member: Seq<char>) -> Seq<
    LocationView,
>
    decreases files.len(),
{
    if files.len() == 0 {
        seq![]
    } else {
        uses_among(files.drop_last(), target, member) + uses_in(files.last(), target, member)
    }
}

/// The references to `member` inside the module that exports it. Only a
/// member that is exported as `member: member` stands for the top-level
/// definition of its name.
pub open spec fn uses_inside(
    module: Option<FileView>,
    member: Seq<char>,
    include_declaration: bool,
) -> Seq<LocationView> {
    match module {
        Some(f) => match top_from(f, member, 0) {
            Some(d) => if exports_itself(f.source, f.tree, member) {
                references_at(f, member, f.defs[d], include_declaration)
            } else {
                seq![]
            },
            None => seq![],
        },
        None => seq![],
    }
}

/// `ls` without those that came before.
pub open spec fn distinct(ls: Seq<LocationView>) -> Seq<LocationView>
    decreases ls.len(),
{
    if ls.len() == 0 {
        seq![]
    } else {
        let rest = distinct(ls.drop_last());
        if rest.contains(ls.last()) {
            rest
        } else {
            rest.push(ls.last())
        }
    }
}

/// The references to `member` of the module at `target`, across the files.
pub open spec fn references_across(
    target: Seq<char>,
    module: Option<FileView>,
    files: Seq<ScannedView>,
    member: Seq<char>,
    include_declaration: bool,
) -> Option<Seq<LocationView>> {
    unless_empty(
        distinct(
            uses_inside(module, member, include_declaration) + uses_among(files, target, member),
        ),
    )
}

/// What was read of a module and of the workspace around it.
#[derive(Debug)]
pub struct Workspace {
    /// The canonical path of the module.
    pub target: String,
    /// The module itself, where it could be read.
    pub module: Option<FileState>,
    /// The files of the workspace.
    pub files: Vec<ScannedFile>,
}

/// What a [`Workspace`] holds.
pub struct WorkspaceView {
    pub target: Seq<char>,
    pub module: Option<FileView>,
    pub files: Seq<ScannedView>,
}

impl View for Workspace {
    type V = WorkspaceView;

    open spec fn view(&self) -> WorkspaceView {
        WorkspaceView {
            target: self.target@,
            module: match self.module {
                Some(m) => Some(m@),
                None => None,
            },
            files: scanned_view(self.files@),
        }
    }
}

impl Workspace {
    /// Whether what is known of the module is what its text says.
    pub open spec fn wf(&self) -> bool {
        self.module matches Some(m) ==> m.wf()
    }
}

/// The references to the variable that a name stands for, in its own file.
/// The field of a selector and the key of a map stand for none.
pub open spec fn references_local(f: FileView, s: SubjectView, include_declaration: bool) -> Option<
    Seq<LocationView>,
> {
    if s.variable {
        references_here(f, s.name, s.byte, include_declaration)
    } else {
        None
    }
}

/// The references to the name at `position`: across the workspace where its
/// module was found, else in its own file.
pub open spec fn references_to(
    f: FileView,
    position: Position,
    include_declaration: bool,
    found: Option<WorkspaceView>,
) -> Option<Seq<LocationView>> {
    match subject_of(f, position) {
        Some(s) => match (s.owner, found) {
            (OwnerView::Local, _) => references_local(f, s, include_declaration),
            (_, Some(w)) => references_across(
                w.target,
                w.module,
                w.files,
                s.name,
                include_declaration,
            ),
            (_, None) => references_local(f, s, include_declaration),
        },
        None => None,
    }
}

/// The view of an optional list of locations.
pub open spec fn found_view(r: Option<Vec<Location>>) -> Option<Seq<LocationView>> {
    match r {
        Some(v) => Some(locations_view(v@)),
        None => None,
    }
}

/// The identifier at `position`.
pub(crate) fn identifier_at(state: &FileState, position: Position) -> (r: Option<usize>)
    ensures
        index(r) == identifier_node(state@, position),
        r matches Some(i) ==> state.tree.has(i),
{
    match state.tree.node_at(to_point(state.source.as_str(), position)) {
        Some(i) => if state.tree.is(i, "identifier") {
            Some(i)
        } else {
            None
        },
        None => None,
    }
}

/// The identifier that node `i` is selected from.
pub(crate) fn find_selected_from(tree: &SyntaxTree, i: usize) -> (r: Option<usize>)
    requires
        tree.has(i),
    ensures
        index(r) == selected_from(tree@.nodes, i as int),
        r matches Some(o) ==> tree.has(o),
{
    let p = match tree.parent(i) {
        Some(p) => p,
        None => {
            return None;
        },
    };
    if !tree.is(p, "selector_expression") || tree.child_by_field_name(p, "field") != Some(i) {
        return None;
    }
    match tree.child_by_field_name(p, "object") {
        Some(o) => if tree.is(o, "identifier") {
            Some(o)
        } else {
            None
        },
        None => None,
    }
}

/// The module that is imported under the name that node `i` is selected from.
pub(crate) fn find_selected_module(state: &FileState, i: usize) -> (r: Option<String>)
    requires
        state.tree.has(i),
    ensures
        crate::text::opt_view(r) == selected_module(state@, i as int),
{
    let o = match find_selected_from(&state.tree, i) {
        Some(o) => o,
        None => {
            return None;
        },
    };
    match state.tree.text(state.source.as_str(), o) {
        Some(alias) => match state.import(alias) {
            Some(m) => Some(m.module.clone()),
            None => None,
        },
        None => None,
    }
}

/// Whether a definition stands at the top level of its file.
fn is_top_level(state: &FileState, d: &Symbol) -> (r: bool)
    ensures
        r == top_level(state@, d@),
{
    d.scope_id < state.scopes.len() && state.scopes[d.scope_id].parent.is_none()
}

/// Whether node `i` is a key of the map that the file exports.
fn is_on_export_key(tree: &SyntaxTree, i: usize) -> (r: bool)
    requires
        tree.has(i),
    ensures
        r == on_export_key(tree@.nodes, i as int),
{
    let e = match tree.parent(i) {
        Some(e) => e,
        None => {
            return false;
        },
    };
    let map = match tree.parent(e) {
        Some(m) => m,
        None => {
            return false;
        },
    };
    find_key(tree, e) == Some(i) && find_export_map(tree) == Some(map)
}

/// Whether some member is called `name`.
fn exports_name(ms: &Vec<ExportMember>, name: &str) -> (r: bool)
    ensures
        r == has_member(members_view(ms@), name@),
{
    let ghost all = members_view(ms@);
    let mut i: usize = 0;
    while i < ms.len()
        invariant
            i <= ms@.len(),
            all == members_view(ms@),
            forall|k: int| 0 <= k < i ==> (#[trigger] all[k]).name != name@,
        decreases ms@.len() - i,
    {
        if same_str(ms[i].name.as_str(), name) {
            assert(all[i as int].name == name@);
            return true;
        }
        i += 1;
    }
    false
}

/// Whether the identifier `name` at node `i` stands for a member that its own
/// file exports.
fn is_own_member(state: &FileState, i: usize, name: &str) -> (r: bool)
    requires
        state.wf(),
        state.tree.has(i),
    ensures
        r == own_member(state@, i as int, name@),
{
    let source = state.source.as_str();
    let members = exports_with_tree(source, &state.tree);
    if !exports_name(&members, name) {
        return false;
    }
    if is_on_export_key(&state.tree, i) {
        return true;
    }
    if !is_variable(source, &state.tree, &entries(&state.tree), i) {
        return false;
    }
    match state.resolve_def(name, state.tree.nodes[i].start_byte) {
        Some(d) => is_top_level(state, d) && exports_itself_with_tree(source, &state.tree, name),
        None => true,
    }
}

/// The name at `position`, and whose member it is.
pub fn subject_at(state: &FileState, position: Position) -> (r: Option<Subject>)
    requires
        state.wf(),
    ensures
        match r {
            Some(s) => subject_of(state@, position) == Some(s@),
            None => subject_of(state@, position) is None,
        },
{
    let i = match identifier_at(state, position) {
        Some(i) => i,
        None => {
            return None;
        },
    };
    let name = match state.tree.text(state.source.as_str(), i) {
        Some(t) => t,
        None => {
            return None;
        },
    };
    let owner = if uri_to_path(state.uri.as_str()).is_none() {
        Owner::Local
    } else {
        match find_selected_module(state, i) {
            Some(m) => Owner::Module(m),
            None => if is_own_member(state, i, name) {
                Owner::Own
            } else {
                Owner::Local
            },
        }
    };
    let variable = is_variable(state.source.as_str(), &state.tree, &entries(&state.tree), i);
    Some(
        Subject {
            name: name.to_string(),
            byte: state.tree.nodes[i].start_byte,
            variable,
            owner,
        },
    )
}

/// The references to the definition `def` of `name` in its file, the
/// definition itself first where it is asked for.
pub fn scope_ranges(state: &FileState, name: &str, def: &Symbol, include_declaration: bool) -> (r: Vec<
    Range,
>)
    requires
        state.wf(),
    ensures
        r@ == references_in(state@, name@, def@, include_declaration),
{
    let mut out: Vec<Range> = Vec::new();
    if def.scope_id >= state.scopes.len() {
        return out;
    }
    let scope = state.scopes[def.scope_id];
    if include_declaration {
        out.push(def.range);
    }
    let ghost first = out@;
    let ghost f = state@;
    assert(first + uses_upto(f, name@, def@, 0) =~= first);
    let mut i: usize = 0;
    while i < state.refs.len()
        invariant
            i <= state.refs@.len(),
            state.wf(),
            f == state@,
            def.scope_id < state.scopes@.len(),
            scope == f.scopes[def.scope_id as int],
            out@ == first + uses_upto(f, name@, def@, i as int),
        decreases state.refs@.len() - i,
    {
        let u = &state.refs[i];
        let at = u.byte_range.start;
        assert(f.refs[i as int] == u@);
        if u.variable && at >= scope.start_byte && at < scope.end_byte && at >= def.byte_range.start && same_str(
            u.name.as_str(),
            name,
        ) {
            let hit = match state.resolve_def(name, at) {
                Some(x) => x.byte_range.start == def.byte_range.start,
                None => false,
            };
            if hit {
                assert(means(f, name@, def@, f.refs[i as int]));
                proof {
                    let rest = uses_upto(f, name@, def@, i as int);
                    assert((first + rest).push(u.range) =~= first + rest.push(u.range));
                }
                out.push(u.range);
            }
        }
        i += 1;
    }
    out
}

/// Those references as locations.
fn scope_references(state: &FileState, name: &str, def: &Symbol, include_declaration: bool) -> (r: Vec<
    Location,
>)
    requires
        state.wf(),
    ensures
        locations_view(r@) == references_at(state@, name@, def@, include_declaration),
{
    let mut out: Vec<Location> = Vec::new();
    assert(locations_view(out@) =~= seq![]);
    if let Some(uri) = parse_url(state.uri.as_str()) {
        let ranges = scope_ranges(state, name, def, include_declaration);
        proof {
            let all = located(uri@, ranges@);
            assert(Seq::<LocationView>::empty() + all =~= all);
        }
        push_located(&mut out, uri.as_str(), &ranges);
    }
    out
}

/// The references in its own file to what `name` means at `byte`.
fn local_references(state: &FileState, name: &str, byte: usize, include_declaration: bool) -> (r: Option<
    Vec<Location>,
>)
    requires
        state.wf(),
    ensures
        found_view(r) == references_here(state@, name@, byte, include_declaration),
{
    let def = match state.resolve_def(name, byte) {
        Some(d) => d,
        None => {
            return None;
        },
    };
    let out = scope_references(state, name, def, include_declaration);
    if out.len() == 0 {
        None
    } else {
        Some(out)
    }
}

/// The first top-level definition of `name`.
fn top_level_def<'a>(state: &'a FileState, name: &str) -> (r: Option<&'a Symbol>)
    ensures
        match r {
            Some(d) => top_from(state@, name@, 0) matches Some(k) && state@.defs[k] == d@,
            None => top_from(state@, name@, 0) is None,
        },
{
    let mut i: usize = 0;
    while i < state.defs.len()
        invariant
            i <= state.defs@.len(),
            top_from(state@, name@, 0) == top_from(state@, name@, i as int),
        decreases state.defs@.len() - i,
    {
        let d = &state.defs[i];
        assert(state@.defs[i as int] == d@);
        if is_top_level(state, d) && same_str(d.name.as_str(), name) {
            return Some(d);
        }
        i += 1;
    }
    None
}

/// Whether node `i` selects `member` from `alias`, and the selected field.
fn find_selection(state: &FileState, i: usize, alias: &str, member: &str) -> (r: Option<usize>)
    requires
        state.tree.has(i),
    ensures
        r is Some == selects(state@.source, state@.tree.nodes, i as int, alias@, member@),
        r is Some ==> index(r) == field_child(state@.tree.nodes, i as int, "field"@),
        r matches Some(x) ==> state.tree.has(x),
{
    let tree = &state.tree;
    let source = state.source.as_str();
    if !tree.is(i, "selector_expression") {
        return None;
    }
    let o = match tree.child_by_field_name(i, "object") {
        Some(o) => o,
        None => {
            return None;
        },
    };
    let x = match tree.child_by_field_name(i, "field") {
        Some(x) => x,
        None => {
            return None;
        },
    };
    let object_ok = tree.is(o, "identifier") && match tree.text(source, o) {
        Some(t) => same_str(t, alias),
        None => false,
    };
    let field_ok = match tree.text(source, x) {
        Some(t) => same_str(t, member),
        None => false,
    };
    if object_ok && field_ok {
        Some(x)
    } else {
        None
    }
}

/// Appends the places where a file selects `member` from `alias`.
fn collect_selector_refs(state: &FileState, alias: &str, member: &str, out: &mut Vec<Location>)
    ensures
        locations_view(final(out)@) == locations_view(old(out)@) + selections(
            state@,
            alias@,
            member@,
        ),
{
    let mut ranges: Vec<Range> = Vec::new();
    let places = Places::of(state.source.as_str());
    let ghost f = state@;
    let n = state.tree.nodes.len();
    let mut i: usize = 0;
    while i < n
        invariant
            i <= n == state.tree.nodes@.len(),
            f == state@,
            places.are_of(f.source),
            ranges@ == selections_upto(f.source, f.tree.nodes, alias@, member@, i as int),
        decreases n - i,
    {
        if let Some(x) = find_selection(state, i, alias, member) {
            ranges.push(places.range(&state.tree.nodes[x], Ghost(f.source)));
        }
        i += 1;
    }
    push_located(out, state.uri.as_str(), &ranges);
}

/// Whether the import at place `k` of a file names the module at `target`.
fn imports_target(file: &ScannedFile, k: usize, target: &str) -> (r: bool)
    ensures
        r == (k < file@.targets.len() && file@.targets[k as int] == Some(target@)),
{
    if k >= file.targets.len() {
        return false;
    }
    match &file.targets[k] {
        Some(t) => same_str(t.as_str(), target),
        None => false,
    }
}

/// Appends the places where a file other than the module at `target` uses its
/// `member`.
fn collect_uses(file: &ScannedFile, target: &str, member: &str, out: &mut Vec<Location>)
    ensures
        locations_view(final(out)@) == locations_view(old(out)@) + uses_in(
            file@,
            target@,
            member@,
        ),
{
    let ghost first = locations_view(out@);
    assert(first + Seq::<LocationView>::empty() =~= first);
    if same_str(file.path.as_str(), target) {
        return;
    }
    let mut k: usize = 0;
    while k < file.state.imports.len()
        invariant
            k <= file.state.imports@.len(),
            locations_view(out@) == first + uses_through(file@, target@, member@, k as int),
        decreases file.state.imports@.len() - k,
    {
        if imports_target(file, k, target) {
            proof {
                let rest = uses_through(file@, target@, member@, k as int);
                let alias = file.state.imports@[k as int].var_name@;
                assert(file@.state.imports[k as int].var_name == alias);
                let here = selections(file@.state, alias, member@);
                assert((first + rest) + here =~= first + (rest + here));
            }
            collect_selector_refs(
                &file.state,
                file.state.imports[k].var_name.as_str(),
                member,
                out,
            );
        }
        k += 1;
    }
}

/// Whether two locations are the same.
fn same_location(a: &Location, b: &Location) -> (r: bool)
    ensures
        r == (a@ == b@),
{
    a.range == b.range && same_str(a.uri.as_str(), b.uri.as_str())
}

/// Whether `l` is among `out`.
pub(crate) fn has_location(out: &Vec<Location>, l: &Location) -> (r: bool)
    ensures
        r == locations_view(out@).contains(l@),
{
    let ghost all = locations_view(out@);
    let mut i: usize = 0;
    while i < out.len()
        invariant
            i <= out@.len(),
            all == locations_view(out@),
            forall|k: int| 0 <= k < i ==> #[trigger] all[k] != l@,
        decreases out@.len() - i,
    {
        if same_location(&out[i], l) {
            assert(all[i as int] == l@);
            return true;
        }
        i += 1;
    }
    false
}

/// Drops the locations that came before.
pub fn dedup(locations: Vec<Location>) -> (r: Vec<Location>)
    ensures
        locations_view(r@) == distinct(locations_view(locations@)),
{
    let ghost all = locations_view(locations@);
    let mut out: Vec<Location> = Vec::new();
    let mut i: usize = 0;
    assert(locations_view(out@) =~= distinct(all.take(0)));
    while i < locations.len()
        invariant
            i <= locations@.len(),
            all == locations_view(locations@),
            locations_view(out@) == distinct(all.take(i as int)),
        decreases locations@.len() - i,
    {
        let l = &locations[i];
        assert(all.take(i + 1).drop_last() =~= all.take(i as int));
        assert(all.take(i + 1).last() == l@);
        if !has_location(&out, l) {
            let ghost before = locations_view(out@);
            out.push(Location { uri: l.uri.clone(), range: l.range });
            assert(locations_view(out@) =~= before.push(l@));
        }
        i += 1;
    }
    assert(all.take(all.len() as int) =~= all);
    out
}

/// The references to `member` of the module at `target`: inside the module,
/// and wherever one of the files uses it through an import.
pub fn cross_file_references(
    workspace: &Workspace,
    member: &str,
    include_declaration: bool,
) -> (r: Option<Vec<Location>>)
    requires
        workspace.wf(),
    ensures
        found_view(r) == references_across(
            workspace@.target,
            workspace@.module,
            workspace@.files,
            member@,
            include_declaration,
        ),
{
    let mut out: Vec<Location> = Vec::new();
    assert(locations_view(out@) =~= seq![]);
    if let Some(state) = &workspace.module {
        if let Some(d) = top_level_def(state, member) {
            if exports_itself_with_tree(state.source.as_str(), &state.tree, member) {
                out = scope_references(state, member, d, include_declaration);
            }
        }
    }
    let ghost first = locations_view(out@);
    assert(first == uses_inside(workspace@.module, member@, include_declaration));
    let ghost files = workspace@.files;
    let target = workspace.target.as_str();
    let mut i: usize = 0;
    assert(files.take(0) =~= seq![]);
    assert(first + Seq::<LocationView>::empty() =~= first);
    while i < workspace.files.len()
        invariant
            i <= workspace.files@.len(),
            files == scanned_view(workspace.files@),
            locations_view(out@) == first + uses_among(files.take(i as int), target@, member@),
        decreases workspace.files@.len() - i,
    {
        assert(files.take(i + 1).drop_last() =~= files.take(i as int));
        assert(files.take(i + 1).last() == workspace.files@[i as int]@);
        proof {
            let rest = uses_among(files.take(i as int), target@, member@);
            let here = uses_in(workspace.files@[i as int]@, target@, member@);
            assert((first + rest) + here =~= first + (rest + here));
        }
        collect_uses(&workspace.files[i], target, member, &mut out);
        i += 1;
    }
    assert(files.take(files.len() as int) =~= files);
    let out = dedup(out);
    if out.len() == 0 {
        None
    } else {
        Some(out)
    }
}

/// The references to the name at `position`. For a member of a module,
/// `workspace` holds what was read of the module and the files around it;
/// without it only the own file is searched.
pub fn find_references(
    state: &FileState,
    position: Position,
    include_declaration: bool,
    workspace: Option<&Workspace>,
) -> (r: Option<Vec<Location>>)
    requires
        state.wf(),
        workspace matches Some(w) ==> w.wf(),
    ensures
        found_view(r) == references_to(
            state@,
            position,
            include_declaration,
            match workspace {
                Some(w) => Some(w@),
                None => None,
            },
        ),
{
    let subject = match subject_at(state, position) {
        Some(s) => s,
        None => {
            return None;
        },
    };
    let name = subject.name.as_str();
    match (&subject.owner, workspace) {
        (Owner::Local, _) => {
            if subject.variable {
                local_references(state, name, subject.byte, include_declaration)
            } else {
                None
            }
        },
        (_, Some(w)) => cross_file_references(w, name, include_declaration),
        (_, None) => {
            if subject.variable {
                local_references(state, name, subject.byte, include_declaration)
            } else {
                None
            }
        },
    }
}

} // verus!
