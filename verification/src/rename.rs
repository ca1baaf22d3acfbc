//! Renaming a symbol wherever it is used.

use vstd::prelude::*;
use vstd::string::*;

use crate::document::FileState;
use crate::document::FileView;
use crate::exports::entry_key;
use crate::exports::entry_name;
use crate::exports::export_entries;
use crate::exports::export_key;
use crate::exports::export_key_ranges_with_tree;
use crate::exports::export_keys;
use crate::exports::export_map;
use crate::exports::exports_itself;
use crate::exports::find_export_map;
use crate::exports::find_key;
use crate::exports::law_all_keys_listed;
use crate::exports::law_first_key_is_a_key;
use crate::lsp::edits_view;
use crate::lsp::locations_view;
use crate::lsp::parse_url;
use crate::lsp::parsed_url;
use crate::lsp::Location;
use crate::lsp::LocationView;
use crate::lsp::Position;
use crate::lsp::Range;
use crate::lsp::TextEdit;
use crate::lsp::TextEditView;
use crate::places::node_to_lsp_range;
use crate::places::range_of;
use crate::references::distinct;
use crate::references::find_references;
use crate::references::has_location;
use crate::references::identifier_at;
use crate::references::identifier_node;
use crate::references::references_to;
use crate::references::selections;
use crate::references::subject_at;
use crate::references::subject_of;
use crate::references::uses_among;
use crate::references::uses_in;
use crate::references::uses_inside;
use crate::references::uses_through;
use crate::references::Owner;
use crate::references::ScannedView;
use crate::references::Workspace;
use crate::references::WorkspaceView;
use crate::references_laws::law_distinct;
use crate::syntax::field_child;
use crate::syntax::parent_of;
use crate::syntax::text_or_empty;
use crate::syntax::NodeView;
use crate::text::chars;
use crate::text::is_one_of;
use crate::text::opt_view;
use crate::text::push_text;
use crate::text::same_str;
use crate::text::string;

verus! {

/// The reserved words.
pub open spec fn keywords() -> Seq<Seq<char>> {
    seq![
        "true"@,
        "false"@,
        "undefined"@,
        "if"@,
        "else"@,
        "for"@,
        "func"@,
        "return"@,
        "import"@,
        "export"@,
        "in"@,
        "break"@,
        "continue"@,
    ]
}

/// A letter of the English alphabet, or an underscore.
pub open spec fn starts_name(c: char) -> bool {
    c == '_' || 'a' <= c <= 'z' || 'A' <= c <= 'Z'
}

/// Such a letter, or a decimal digit.
pub open spec fn continues_name(c: char) -> bool {
    starts_name(c) || '0' <= c <= '9'
}

/// Whether `s` is an identifier: a letter and then letters and digits.
pub open spec fn is_identifier(s: Seq<char>) -> bool {
    &&& s.len() > 0
    &&& starts_name(s[0])
    &&& forall|i: int| 0 < i < s.len() ==> continues_name(#[trigger] s[i])
}

/// Whether a symbol can be called `s`.
pub open spec fn can_be_name(s: Seq<char>) -> bool {
    is_identifier(s) && !keywords().contains(s)
}

/// Why a symbol was not renamed.
#[derive(Debug)]
pub enum RenameError {
    /// There is no symbol at the place that can be renamed.
    NotRenameable,
    /// The new name is no identifier.
    InvalidName(String),
}

/// What a [`RenameError`] holds.
pub enum RenameErrorView {
    NotRenameable,
    InvalidName(Seq<char>),
}

impl View for RenameError {
    type V = RenameErrorView;

    open spec fn view(&self) -> RenameErrorView {
        match self {
            RenameError::NotRenameable => RenameErrorView::NotRenameable,
            RenameError::InvalidName(m) => RenameErrorView::InvalidName(m@),
        }
    }
}

/// The edits of one file.
#[derive(Debug)]
pub struct FileEdits {
    pub uri: String,
    pub edits: Vec<TextEdit>,
}

/// What a [`FileEdits`] holds.
#[verifier::ext_equal]
pub struct FileEditsView {
    pub uri: Seq<char>,
    pub edits: Seq<TextEditView>,
}

impl View for FileEdits {
    type V = FileEditsView;

    open spec fn view(&self) -> FileEditsView {
        FileEditsView { uri: self.uri@, edits: edits_view(self.edits@) }
    }
}

/// Edits of several files, each file once.
#[derive(Debug)]
pub struct WorkspaceEdit {
    pub changes: Vec<FileEdits>,
}

impl View for WorkspaceEdit {
    type V = Seq<FileEditsView>;

    open spec fn view(&self) -> Seq<FileEditsView> {
        self.changes@.map_values(|c: FileEdits| c@)
    }
}

/// The place of the file at `uri` among `changes`.
pub open spec fn file_index(changes: Seq<FileEditsView>, uri: Seq<char>) -> Option<int>
    decreases changes.len(),
{
    if changes.len() == 0 {
        None
    } else {
        match file_index(changes.drop_last(), uri) {
            Some(k) => Some(k),
            None => if changes.last().uri == uri {
                Some(changes.len() - 1)
            } else {
                None
            },
        }
    }
}

/// The edits of the file at `uri`.
pub open spec fn edits_of(changes: Seq<FileEditsView>, uri: Seq<char>) -> Option<Seq<TextEditView>> {
    match file_index(changes, uri) {
        Some(k) => Some(changes[k].edits),
        None => None,
    }
}

/// `changes` with one more edit of the file at `uri`.
pub open spec fn with_edit(changes: Seq<FileEditsView>, uri: Seq<char>, edit: TextEditView) -> Seq<
    FileEditsView,
> {
    match file_index(changes, uri) {
        Some(k) => changes.update(
            k,
            FileEditsView { uri, edits: changes[k].edits.push(edit) },
        ),
        None => changes.push(FileEditsView { uri, edits: seq![edit] }),
    }
}

/// The edits that put `new_name` at each of the locations, sorted by file.
pub open spec fn edits_at(ls: Seq<LocationView>, new_name: Seq<char>) -> Seq<FileEditsView>
    decreases ls.len(),
{
    if ls.len() == 0 {
        seq![]
    } else {
        with_edit(
            edits_at(ls.drop_last(), new_name),
            ls.last().uri,
            TextEditView { range: ls.last().range, new_text: new_name },
        )
    }
}

/// Whether node `i` lies within the map that its file exports.
pub open spec fn in_export_map(ns: Seq<NodeView>, i: int) -> bool {
    match export_map(ns) {
        Some(m) => ns[i].start_byte >= ns[m].start_byte && ns[i].end_byte <= ns[m].end_byte,
        None => false,
    }
}

/// Whether node `i` is the key of an export that is not `name: name`. The
/// uses of such a name could be rewritten, but not the key with them.
pub open spec fn unsafe_key(f: FileView, i: int) -> bool {
    let ns = f.tree.nodes;
    match parent_of(ns, i) {
        Some(p) => entry_key(ns, p) == Some(i) && in_export_map(ns, i) && !(match field_child(
            ns,
            p,
            "value"@,
        ) {
            Some(v) => ns[v].kind == "identifier"@ && text_or_empty(f.source, ns[v])
                == text_or_empty(f.source, ns[i]),
            None => false,
        }),
        None => false,
    }
}

/// The symbol at `position` that can be renamed.
pub open spec fn renameable(f: FileView, position: Position) -> Option<int> {
    match identifier_node(f, position) {
        Some(i) => if unsafe_key(f, i) {
            None
        } else {
            Some(i)
        },
        None => None,
    }
}

/// What is said of a name that is no identifier.
pub open spec fn invalid_name(name: Seq<char>) -> Seq<char> {
    "`"@ + name + "` is not a valid Tengo identifier"@
}

/// Whether the references `ls` leave out one of the keys at the given places of
/// the file at `uri`.
pub open spec fn leaves_one(uri: Option<Seq<char>>, keys: Seq<Range>, ls: Seq<LocationView>) -> bool {
    exists|i: int|
        0 <= i < keys.len() && !(uri matches Some(u) && ls.contains(
            (LocationView { uri: u, range: #[trigger] keys[i] }),
        ))
}

/// Whether the references `ls` to the name at `position` leave out a key under
/// which its module exports it: to rename them would leave the key behind.
pub open spec fn leaves_key(
    f: FileView,
    position: Position,
    found: Option<WorkspaceView>,
    ls: Seq<LocationView>,
) -> bool {
    match (subject_of(f, position), found) {
        (Some(s), Some(w)) => match w.module {
            Some(m) => s.owner !is Local && leaves_one(
                parsed_url(m.uri),
                export_keys(m.source, m.tree, s.name),
                ls,
            ),
            None => false,
        },
        _ => false,
    }
}

/// The edits that rename the symbol at `position`. A name whose export key
/// would be left behind is not renamed.
pub open spec fn renamed(
    f: FileView,
    position: Position,
    new_name: Seq<char>,
    found: Option<WorkspaceView>,
) -> Result<Seq<FileEditsView>, RenameErrorView> {
    if !can_be_name(new_name) {
        Err(RenameErrorView::InvalidName(invalid_name(new_name)))
    } else if renameable(f, position) is None {
        Err(RenameErrorView::NotRenameable)
    } else {
        match references_to(f, position, true, found) {
            Some(ls) => if leaves_key(f, position, found, ls) {
                Err(RenameErrorView::NotRenameable)
            } else {
                Ok(edits_at(ls, new_name))
            },
            None => Err(RenameErrorView::NotRenameable),
        }
    }
}

/// What [`file_index`] finds.
proof fn lemma_file_index(changes: Seq<FileEditsView>, uri: Seq<char>)
    ensures
        match file_index(changes, uri) {
            Some(k) => 0 <= k < changes.len() && changes[k].uri == uri && (forall|j: int|
                0 <= j < k ==> (#[trigger] changes[j]).uri != uri),
            None => forall|j: int| 0 <= j < changes.len() ==> (#[trigger] changes[j]).uri != uri,
        },
    decreases changes.len(),
{
    if changes.len() > 0 {
        let front = changes.drop_last();
        lemma_file_index(front, uri);
        assert forall|j: int| 0 <= j < front.len() implies #[trigger] changes[j] == front[j] by {}
    }
}

/// Whether no file stands among `changes` twice.
pub open spec fn distinct_files(changes: Seq<FileEditsView>) -> bool {
    forall|i: int, j: int|
        0 <= i < j < changes.len() ==> (#[trigger] changes[i]).uri != (#[trigger] changes[j]).uri
}

/// One more edit goes to its own file, behind the others there.
proof fn lemma_with_edit(
    changes: Seq<FileEditsView>,
    uri: Seq<char>,
    edit: TextEditView,
    other: Seq<char>,
)
    requires
        distinct_files(changes),
    ensures
        distinct_files(with_edit(changes, uri, edit)),
        edits_of(with_edit(changes, uri, edit), uri) == Some(
            (match edits_of(changes, uri) {
                Some(es) => es.push(edit),
                None => seq![edit],
            }),
        ),
        other != uri ==> edits_of(with_edit(changes, uri, edit), other) == edits_of(changes, other),
{
    let now = with_edit(changes, uri, edit);
    lemma_file_index(changes, uri);
    lemma_file_index(changes, other);
    lemma_file_index(now, uri);
    lemma_file_index(now, other);
    match file_index(changes, uri) {
        Some(k) => {
            assert(now[k].uri == uri);
            if let Some(j) = file_index(changes, other) {
                if j != k {
                    assert(now[j] == changes[j]);
                }
            }
            if let Some(j) = file_index(now, other) {
                if j != k {
                    assert(now[j] == changes[j]);
                }
            }
        },
        None => {
            assert(now[changes.len() as int].uri == uri);
            if let Some(j) = file_index(changes, other) {
                assert(now[j] == changes[j]);
            }
            if let Some(j) = file_index(now, other) {
                if j < changes.len() {
                    assert(now[j] == changes[j]);
                }
            }
        },
    }
}

/// The edits that belong at those of the locations that lie in the file at
/// `uri`.
pub open spec fn edits_in(ls: Seq<LocationView>, uri: Seq<char>, new_name: Seq<char>) -> Seq<
    TextEditView,
>
    decreases ls.len(),
{
    if ls.len() == 0 {
        seq![]
    } else {
        let rest = edits_in(ls.drop_last(), uri, new_name);
        if ls.last().uri == uri {
            rest.push(TextEditView { range: ls.last().range, new_text: new_name })
        } else {
            rest
        }
    }
}

/// A rename edits each file once, and in it exactly the references, in their
/// order, each to the new name.
pub proof fn law_edits_are_references(ls: Seq<LocationView>, new_name: Seq<char>, uri: Seq<char>)
    ensures
        distinct_files(edits_at(ls, new_name)),
        edits_of(edits_at(ls, new_name), uri) == (if edits_in(ls, uri, new_name).len() == 0 {
            None
        } else {
            Some(edits_in(ls, uri, new_name))
        }),
    decreases ls.len(),
{
    if ls.len() > 0 {
        law_edits_are_references(ls.drop_last(), new_name, uri);
        let edit = TextEditView { range: ls.last().range, new_text: new_name };
        lemma_with_edit(edits_at(ls.drop_last(), new_name), ls.last().uri, edit, uri);
        if ls.last().uri == uri {
            law_edits_are_references(ls.drop_last(), new_name, ls.last().uri);
            if edits_in(ls.drop_last(), uri, new_name).len() == 0 {
                assert(edits_in(ls.drop_last(), uri, new_name).push(edit) =~= seq![edit]);
            }
        }
    }
}

/// Where a rename is refused beforehand, it is refused, whatever the new name
/// and wherever the symbol is used.
pub proof fn law_refused_is_refused(
    f: FileView,
    position: Position,
    new_name: Seq<char>,
    found: Option<WorkspaceView>,
)
    requires
        renameable(f, position) is None,
        can_be_name(new_name),
    ensures
        renamed(f, position, new_name, found) == Err::<Seq<FileEditsView>, RenameErrorView>(
            RenameErrorView::NotRenameable,
        ),
{
}

/// A rename succeeds exactly where the name is one, the symbol can be renamed
/// and has references, and no export key is left behind.
pub proof fn law_rename_succeeds(
    f: FileView,
    position: Position,
    new_name: Seq<char>,
    found: Option<WorkspaceView>,
)
    ensures
        renamed(f, position, new_name, found) is Ok <==> can_be_name(new_name) && renameable(
            f,
            position,
        ) is Some && (references_to(f, position, true, found) matches Some(ls) && !leaves_key(
            f,
            position,
            found,
            ls,
        )),
{
}

proof fn lemma_edit_in(ls: Seq<LocationView>, new_name: Seq<char>, i: int)
    requires
        0 <= i < ls.len(),
    ensures
        edits_in(ls, ls[i].uri, new_name).contains(
            (TextEditView { range: ls[i].range, new_text: new_name }),
        ),
    decreases ls.len(),
{
    let edit = TextEditView { range: ls[i].range, new_text: new_name };
    let all = edits_in(ls, ls[i].uri, new_name);
    if i == ls.len() - 1 {
        assert(all.last() == edit);
    } else {
        lemma_edit_in(ls.drop_last(), new_name, i);
        let rest = edits_in(ls.drop_last(), ls[i].uri, new_name);
        let j = choose|j: int| 0 <= j < rest.len() && rest[j] == edit;
        assert(all[j] == edit);
    }
}

/// Where a rename succeeds, every reference that a search for the symbol
/// reports is rewritten to the new name.
pub proof fn law_every_reference_renamed(
    f: FileView,
    position: Position,
    new_name: Seq<char>,
    found: Option<WorkspaceView>,
    i: int,
)
    requires
        renamed(f, position, new_name, found) is Ok,
        references_to(f, position, true, found) matches Some(ls) && 0 <= i < ls.len(),
    ensures
        ({
            let l = references_to(f, position, true, found)->0[i];
            edits_of(renamed(f, position, new_name, found)->Ok_0, l.uri) matches Some(es)
                && es.contains((TextEditView { range: l.range, new_text: new_name }))
        }),
{
    let ls = references_to(f, position, true, found)->0;
    law_edits_are_references(ls, new_name, ls[i].uri);
    lemma_edit_in(ls, new_name, i);
}

/// No rename is half applied: where a member of a module is renamed, so is
/// every key under which the module exports it.
pub proof fn law_export_key_renamed(
    f: FileView,
    position: Position,
    new_name: Seq<char>,
    w: WorkspaceView,
    m: FileView,
    i: int,
)
    requires
        renamed(f, position, new_name, Some(w)) is Ok,
        w.module == Some(m),
        0 <= i < export_entries(m.tree.nodes).len(),
        subject_of(f, position) matches Some(s) && s.owner !is Local && entry_name(
            m.source,
            m.tree.nodes,
            export_entries(m.tree.nodes)[i],
        ) == Some(s.name),
    ensures
        ({
            let ns = m.tree.nodes;
            let range = range_of(m.source, ns[entry_key(ns, export_entries(ns)[i])->0]);
            parsed_url(m.uri) matches Some(uri) && (edits_of(
                renamed(f, position, new_name, Some(w))->Ok_0,
                uri,
            ) matches Some(es) && es.contains((TextEditView { range, new_text: new_name })))
        }),
{
    let ns = m.tree.nodes;
    let name = subject_of(f, position)->0.name;
    let range = range_of(m.source, ns[entry_key(ns, export_entries(ns)[i])->0]);
    let ls = references_to(f, position, true, Some(w))->0;
    let keys = export_keys(m.source, m.tree, name);
    law_all_keys_listed(m.source, m.tree, name, i);
    let k = choose|k: int| 0 <= k < keys.len() && keys[k] == range;
    assert(keys[k] == range);
    let l = LocationView { uri: parsed_url(m.uri)->0, range };
    assert(ls.contains(l));
    let j = choose|j: int| 0 <= j < ls.len() && ls[j] == l;
    law_every_reference_renamed(f, position, new_name, Some(w), j);
}

/// A member that its module exports as something else than `name: name` only
/// is not renamed, from wherever it is asked for.
pub proof fn law_divergent_key_refused(
    f: FileView,
    position: Position,
    new_name: Seq<char>,
    w: WorkspaceView,
    m: FileView,
)
    requires
        can_be_name(new_name),
        subject_of(f, position) matches Some(s) && s.owner !is Local && export_key(
            m.source,
            m.tree,
            s.name,
        ) is Some && !exports_itself(m.source, m.tree, s.name),
        w.module == Some(m),
        forall|i: int| 0 <= i < w.files.len() ==> Some((#[trigger] w.files[i]).state.uri)
            != parsed_url(m.uri) || w.files[i].path == w.target,
    ensures
        renamed(f, position, new_name, Some(w)) == Err::<Seq<FileEditsView>, RenameErrorView>(
            RenameErrorView::NotRenameable,
        ),
{
    let name = subject_of(f, position)->0.name;
    let inside = uses_inside(Some(m), name, true);
    let among = uses_among(w.files, w.target, name);
    lemma_uses_elsewhere(w.files, w.target, name, parsed_url(m.uri));
    law_distinct(inside + among);
    assert(inside =~= seq![]);
    assert(inside + among =~= among);
    let range = export_key(m.source, m.tree, name)->0;
    let keys = export_keys(m.source, m.tree, name);
    law_first_key_is_a_key(m.source, m.tree, name);
    let k = choose|k: int| 0 <= k < keys.len() && keys[k] == range;
    assert(keys[k] == range);
    if let Some(uri) = parsed_url(m.uri) {
        let l = LocationView { uri, range };
        assert(!among.contains(l));
        assert(!distinct(inside + among).contains(l));
    }
}

/// Uses in other files than the one at `uri` are not at `uri`.
proof fn lemma_uses_elsewhere(
    files: Seq<ScannedView>,
    target: Seq<char>,
    member: Seq<char>,
    uri: Option<Seq<char>>,
)
    requires
        forall|i: int| 0 <= i < files.len() ==> Some((#[trigger] files[i]).state.uri) != uri
            || files[i].path == target,
    ensures
        forall|l: LocationView| #[trigger] uses_among(files, target, member).contains(l) ==> Some(l.uri)
            != uri,
    decreases files.len(),
{
    if files.len() > 0 {
        let front = files.drop_last();
        assert forall|i: int| 0 <= i < front.len() implies Some((#[trigger] front[i]).state.uri)
            != uri || front[i].path == target by {
            assert(front[i] == files[i]);
        }
        lemma_uses_elsewhere(front, target, member, uri);
        let s = files.last();
        assert(files[files.len() - 1] == s);
        lemma_uses_through(s, target, member, s.state.imports.len() as int);
        let rest = uses_among(front, target, member);
        let here = uses_in(s, target, member);
        assert forall|l: LocationView| #[trigger] uses_among(files, target, member).contains(
            l,
        ) implies Some(l.uri) != uri by {
            let j = choose|j: int| 0 <= j < (rest + here).len() && (rest + here)[j] == l;
            if j < rest.len() {
                assert(rest.contains(rest[j]));
            } else {
                assert(here.contains(here[j - rest.len()]));
            }
        }
    }
}

/// The uses in a file are in that file.
proof fn lemma_uses_through(s: ScannedView, target: Seq<char>, member: Seq<char>, n: int)
    ensures
        forall|l: LocationView| #[trigger] uses_through(s, target, member, n).contains(l) ==> l.uri
            == s.state.uri,
    decreases n,
{
    if n > 0 {
        lemma_uses_through(s, target, member, n - 1);
        let rest = uses_through(s, target, member, n - 1);
        let here = selections(s.state, s.state.imports[n - 1].var_name, member);
        let all = uses_through(s, target, member, n);
        assert forall|l: LocationView| #[trigger] all.contains(l) implies l.uri == s.state.uri by {
            let j = choose|j: int| 0 <= j < all.len() && all[j] == l;
            if j < rest.len() {
                assert(rest[j] == l);
                assert(rest.contains(l));
            } else {
                assert(here[j - rest.len()] == l);
            }
        }
    }
}

/// Whether `s` is an identifier.
pub fn is_valid_identifier(s: &str) -> (r: bool)
    ensures
        r == is_identifier(s@),
{
    let cs = chars(s);
    if cs.len() == 0 || !is_name_start(cs[0]) {
        return false;
    }
    let mut i: usize = 1;
    while i < cs.len()
        invariant
            1 <= i <= cs@.len(),
            cs@ == s@,
            forall|k: int| 0 < k < i ==> continues_name(#[trigger] cs@[k]),
        decreases cs@.len() - i,
    {
        if !is_name_char(cs[i]) {
            return false;
        }
        i += 1;
    }
    true
}

fn is_name_start(c: char) -> (r: bool)
    ensures
        r == starts_name(c),
{
    c == '_' || ('a' <= c && c <= 'z') || ('A' <= c && c <= 'Z')
}

pub(crate) fn is_name_char(c: char) -> (r: bool)
    ensures
        r == continues_name(c),
{
    is_name_start(c) || ('0' <= c && c <= '9')
}

/// Whether a symbol can be called `s`.
fn is_usable_name(s: &str) -> (r: bool)
    ensures
        r == can_be_name(s@),
{
    let words = [
        "true",
        "false",
        "undefined",
        "if",
        "else",
        "for",
        "func",
        "return",
        "import",
        "export",
        "in",
        "break",
        "continue",
    ];
    proof {
        let names = keywords();
        assert forall|i: int| 0 <= i < names.len() implies #[trigger] names[i] == words@[i]@ by {}
        if names.contains(s@) {
            let i = choose|i: int| 0 <= i < names.len() && names[i] == s@;
            assert(words@[i]@ == s@);
        }
        assert forall|i: int| 0 <= i < words@.len() && (#[trigger] words@[i])@ == s@ implies
            names.contains(s@) by {
            assert(names[i] == s@);
        }
    }
    is_valid_identifier(s) && !is_one_of(s, &words)
}

/// Whether node `i` is the key of an export that is not `name: name`.
fn is_unsafe_export_key(state: &FileState, i: usize) -> (r: bool)
    requires
        state.tree.has(i),
    ensures
        r == unsafe_key(state@, i as int),
{
    let tree = &state.tree;
    let source = state.source.as_str();
    let p = match tree.parent(i) {
        Some(p) => p,
        None => {
            return false;
        },
    };
    if find_key(tree, p) != Some(i) {
        return false;
    }
    let inside = match find_export_map(tree) {
        Some(m) => tree.nodes[i].start_byte >= tree.nodes[m].start_byte && tree.nodes[i].end_byte
            <= tree.nodes[m].end_byte,
        None => false,
    };
    if !inside {
        return false;
    }
    match tree.child_by_field_name(p, "value") {
        Some(v) => !(tree.is(v, "identifier") && same_str(
            tree.text_or_empty(source, v),
            tree.text_or_empty(source, i),
        )),
        None => true,
    }
}

/// The symbol at `position` that can be renamed.
fn find_renameable(state: &FileState, position: Position) -> (r: Option<usize>)
    ensures
        crate::syntax::index(r) == renameable(state@, position),
        r matches Some(i) ==> state.tree.has(i),
{
    match identifier_at(state, position) {
        Some(i) => if is_unsafe_export_key(state, i) {
            None
        } else {
            Some(i)
        },
        None => None,
    }
}

/// Where the symbol at `position` stands, where it can be renamed.
pub fn prepare_rename(state: &FileState, position: Position) -> (r: Option<Range>)
    ensures
        r == (match renameable(state@, position) {
            Some(i) => Some(range_of(state@.source, state@.tree.nodes[i])),
            None => None,
        }),
{
    match find_renameable(state, position) {
        Some(i) => Some(node_to_lsp_range(state.source.as_str(), &state.tree.nodes[i])),
        None => None,
    }
}

impl WorkspaceEdit {
    /// The place of the file at `uri` among the changes.
    fn find(&self, uri: &str) -> (r: Option<usize>)
        ensures
            crate::syntax::index(r) == file_index(self@, uri@),
            r matches Some(k) ==> k < self.changes@.len(),
    {
        let ghost all = self@;
        let mut i: usize = 0;
        assert(all.take(0) =~= seq![]);
        while i < self.changes.len()
            invariant
                i <= self.changes@.len(),
                all == self@,
                file_index(all.take(i as int), uri@) is None,
            decreases self.changes@.len() - i,
        {
            assert(all.take(i + 1).drop_last() =~= all.take(i as int));
            assert(all.take(i + 1).last() == self.changes@[i as int]@);
            if same_str(self.changes[i].uri.as_str(), uri) {
                proof {
                    lemma_file_index_prefix(all, uri@, i + 1);
                }
                return Some(i);
            }
            i += 1;
        }
        assert(all.take(all.len() as int) =~= all);
        None
    }

    /// The edits of the file at `uri`.
    pub fn edits(&self, uri: &str) -> (r: Option<&Vec<TextEdit>>)
        ensures
            edits_of(self@, uri@) == (match r {
                Some(es) => Some(edits_view(es@)),
                None => None,
            }),
    {
        match self.find(uri) {
            Some(k) => {
                assert(self@[k as int] == self.changes@[k as int]@);
                Some(&self.changes[k].edits)
            },
            None => None,
        }
    }

    /// Puts one more edit to the file at `uri`.
    fn push(&mut self, uri: &str, edit: TextEdit)
        ensures
            final(self)@ == with_edit(old(self)@, uri@, edit@),
    {
        let ghost before = self@;
        match self.find(uri) {
            Some(k) => {
                let ghost all = self.changes@;
                let ghost es = self.changes@[k as int].edits@;
                assert(before[k as int] == self.changes@[k as int]@);
                self.changes[k].edits.push(edit);
                proof {
                    lemma_file_index(before, uri@);
                    assert(edits_view(es.push(edit)) =~= edits_view(es).push(edit@));
                    let now = FileEditsView { uri: uri@, edits: edits_view(es).push(edit@) };
                    assert(self.changes@[k as int]@ == now);
                    assert(self@ =~= before.update(k as int, now));
                }
            },
            None => {
                let ghost added = edit@;
                let edits = vec![edit];
                assert(edits_view(edits@) =~= seq![added]);
                self.changes.push(FileEdits { uri: uri.to_string(), edits });
                assert(self@ =~= before.push(FileEditsView { uri: uri@, edits: seq![added] }));
            },
        }
    }
}

/// What a prefix finds the whole finds too.
proof fn lemma_file_index_prefix(changes: Seq<FileEditsView>, uri: Seq<char>, n: int)
    requires
        0 <= n <= changes.len(),
        file_index(changes.take(n), uri) is Some,
    ensures
        file_index(changes, uri) == file_index(changes.take(n), uri),
    decreases changes.len() - n,
{
    if n == changes.len() {
        assert(changes.take(n) =~= changes);
    } else {
        assert(changes.take(n + 1).drop_last() =~= changes.take(n));
        lemma_file_index_prefix(changes, uri, n + 1);
    }
}

/// The edits that put `new_name` at each of the locations.
fn edit_locations(locations: &Vec<Location>, new_name: &str) -> (r: WorkspaceEdit)
    ensures
        r@ == edits_at(locations_view(locations@), new_name@),
{
    let ghost all = locations_view(locations@);
    let mut out = WorkspaceEdit { changes: Vec::new() };
    let mut i: usize = 0;
    assert(out@ =~= edits_at(all.take(0), new_name@));
    while i < locations.len()
        invariant
            i <= locations@.len(),
            all == locations_view(locations@),
            out@ == edits_at(all.take(i as int), new_name@),
        decreases locations@.len() - i,
    {
        let l = &locations[i];
        assert(all.take(i + 1).drop_last() =~= all.take(i as int));
        assert(all.take(i + 1).last() == l@);
        out.push(
            l.uri.as_str(),
            TextEdit { range: l.range, new_text: new_name.to_string() },
        );
        i += 1;
    }
    assert(all.take(all.len() as int) =~= all);
    out
}

/// Whether the references to the name at `position` leave out the key under
/// which its module exports it.
#[verifier::loop_isolation(false)]
fn is_key_left(
    state: &FileState,
    position: Position,
    workspace: Option<&Workspace>,
    locations: &Vec<Location>,
) -> (r: bool)
    requires
        state.wf(),
    ensures
        r == leaves_key(
            state@,
            position,
            match workspace {
                Some(w) => Some(w@),
                None => None,
            },
            locations_view(locations@),
        ),
{
    let (subject, workspace) = match (subject_at(state, position), workspace) {
        (Some(s), Some(w)) => (s, w),
        _ => {
            return false;
        },
    };
    let module = match &workspace.module {
        Some(m) => m,
        None => {
            return false;
        },
    };
    if let Owner::Local = subject.owner {
        return false;
    }
    let keys = export_key_ranges_with_tree(
        module.source.as_str(),
        &module.tree,
        subject.name.as_str(),
    );
    let uri = parse_url(module.uri.as_str());
    let ghost ls = locations_view(locations@);
    let mut i: usize = 0;
    while i < keys.len()
        invariant
            i <= keys@.len(),
            ls == locations_view(locations@),
            forall|k: int|
                0 <= k < i ==> (opt_view(uri) matches Some(u) && ls.contains(
                    (LocationView { uri: u, range: #[trigger] keys@[k] }),
                )),
        decreases keys@.len() - i,
    {
        let there = match &uri {
            Some(u) => has_location(locations, &Location { uri: u.clone(), range: keys[i] }),
            None => false,
        };
        if !there {
            assert(!(opt_view(uri) matches Some(u) && ls.contains(
                (LocationView { uri: u, range: keys@[i as int] }),
            )));
            assert(leaves_one(opt_view(uri), keys@, ls));
            proof {
                assert(opt_view(uri) == parsed_url(module@.uri));
                assert(keys@ == export_keys(module@.source, module@.tree, subject@.name));
            }
            return true;
        }
        i += 1;
    }
    false
}

/// The edits that rename the symbol at `position` to `new_name`, wherever it
/// is used.
pub fn rename(
    state: &FileState,
    position: Position,
    new_name: &str,
    workspace: Option<&Workspace>,
) -> (r: Result<WorkspaceEdit, RenameError>)
    requires
        state.wf(),
        workspace matches Some(w) ==> w.wf(),
    ensures
        renamed(
            state@,
            position,
            new_name@,
            match workspace {
                Some(w) => Some(w@),
                None => None,
            },
        ) == (match r {
            Ok(e) => Ok::<Seq<FileEditsView>, RenameErrorView>(e@),
            Err(e) => Err(e@),
        }),
{
    if !is_usable_name(new_name) {
        let mut message = chars("`");
        push_text(&mut message, new_name);
        push_text(&mut message, "` is not a valid Tengo identifier");
        return Err(RenameError::InvalidName(string(&message)));
    }
    if find_renameable(state, position).is_none() {
        return Err(RenameError::NotRenameable);
    }
    match find_references(state, position, true, workspace) {
        Some(locations) => if is_key_left(state, position, workspace, &locations) {
            Err(RenameError::NotRenameable)
        } else {
            Ok(edit_locations(&locations, new_name))
        },
        None => Err(RenameError::NotRenameable),
    }
}

} // verus!
