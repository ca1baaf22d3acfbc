//! Completion: the members of an imported module behind `alias.`.

use vstd::prelude::*;
use vstd::slice::slice_subrange;
use vstd::string::*;

use crate::document::FileState;
use crate::document::FileView;
use crate::exports::exported;
use crate::exports::exports_with_tree;
use crate::exports::members_view;
use crate::exports::ExportMember;
use crate::exports::ExportView;
use crate::exports::ItemKind;
use crate::lsp::Position;
use crate::places::lemma_places_increase;
use crate::places::place_after;
use crate::places::Walk;
use crate::references::find_selected_from;
use crate::references::identifier_at;
use crate::references::identifier_node;
use crate::references::selected_from;
use crate::rename::continues_name;
use crate::rename::is_name_char;
use crate::resolver::path_of_uri;
use crate::resolver::uri_to_path;
use crate::symbols::import_named;
use crate::syntax::index;
use crate::syntax::text_of;
use crate::text::chars;
use crate::text::opt_view;
use crate::text::push_text;
use crate::text::string;

verus! {

/// A member that is offered.
#[derive(Debug)]
pub struct CompletionItem {
    pub label: String,
    pub kind: ItemKind,
    /// The name with the signature of a function.
    pub detail: Option<String>,
    pub documentation: Option<String>,
}

/// What a [`CompletionItem`] holds.
pub struct ItemView {
    pub label: Seq<char>,
    pub kind: ItemKind,
    pub detail: Option<Seq<char>>,
    pub documentation: Option<Seq<char>>,
}

impl View for CompletionItem {
    type V = ItemView;

    open spec fn view(&self) -> ItemView {
        ItemView {
            label: self.label@,
            kind: self.kind,
            detail: opt_view(self.detail),
            documentation: opt_view(self.documentation),
        }
    }
}

/// The views of a list of items.
pub open spec fn items_view(v: Seq<CompletionItem>) -> Seq<ItemView> {
    v.map_values(|i: CompletionItem| i@)
}

/// What is offered for a member.
pub open spec fn item_of(m: ExportView) -> ItemView {
    ItemView {
        label: m.name,
        kind: m.kind,
        detail: match m.signature {
            Some(s) => Some(m.name + s),
            None => None,
        },
        documentation: m.doc,
    }
}

/// The number of characters before `position`, looked for from `n` on.
pub open spec fn index_from(s: Seq<char>, position: Position, n: int) -> Option<int>
    decreases s.len() - n,
{
    if place_after(s, n) == (position.line as nat, position.character as nat) {
        Some(n)
    } else if n >= s.len() {
        None
    } else {
        index_from(s, position, n + 1)
    }
}

/// The number of characters before `position`.
pub open spec fn index_of_position(s: Seq<char>, position: Position) -> Option<int> {
    index_from(s, position, 0)
}

/// Where the name begins that ends at `n`.
pub open spec fn name_start(s: Seq<char>, n: int) -> int
    decreases n,
{
    if n > 0 && continues_name(s[n - 1]) {
        name_start(s, n - 1)
    } else {
        n
    }
}

/// The name before the dot before the part of a name at `position`.
pub open spec fn name_before_dot(s: Seq<char>, position: Position) -> Option<Seq<char>> {
    match index_of_position(s, position) {
        Some(n) => {
            let i = name_start(s, n);
            let start = name_start(s, i - 1);
            if i > 0 && s[i - 1] == '.' && start < i - 1 {
                Some(s.subrange(start, i - 1))
            } else {
                None
            }
        },
        None => None,
    }
}

/// The name whose members are asked for at `position`: what the identifier
/// there is selected from, or else the name before a dot.
pub open spec fn completed_name(f: FileView, position: Position) -> Option<Seq<char>> {
    let selected = match identifier_node(f, position) {
        Some(i) => match selected_from(f.tree.nodes, i) {
            Some(o) => text_of(f.source, f.tree.nodes[o]),
            None => None,
        },
        None => None,
    };
    match selected {
        Some(name) => Some(name),
        None => name_before_dot(f.source, position),
    }
}

/// The imported module whose members are asked for at `position`.
pub open spec fn completed_module(f: FileView, position: Position) -> Option<Seq<char>> {
    match completed_name(f, position) {
        Some(alias) => match import_named(f.imports, alias) {
            Some(m) => if path_of_uri(f.uri) is Some {
                Some(m.module)
            } else {
                None
            },
            None => None,
        },
        None => None,
    }
}

/// What is offered at `position`, given the module that it is about.
pub open spec fn completed(f: FileView, position: Position, module: Option<FileView>) -> Option<
    Seq<ItemView>,
> {
    match (completed_module(f, position), module) {
        (Some(_), Some(m)) => {
            let ms = exported(m.source, m.tree);
            if ms.len() == 0 {
                None
            } else {
                Some(ms.map_values(|x: ExportView| item_of(x)))
            }
        },
        _ => None,
    }
}

/// What is offered are the exported members, all of them, in their order.
pub proof fn law_all_members_offered(f: FileView, position: Position, m: FileView, i: int)
    requires
        completed_module(f, position) is Some,
        0 <= i < exported(m.source, m.tree).len(),
    ensures
        completed(f, position, Some(m)) matches Some(items) && items.len() == exported(
            m.source,
            m.tree,
        ).len() && items[i].label == exported(m.source, m.tree)[i].name,
{
}

proof fn lemma_index_from(s: Seq<char>, position: Position, n: int, from: int)
    requires
        0 <= from <= n <= s.len(),
        place_after(s, n) == (position.line as nat, position.character as nat),
    ensures
        index_from(s, position, from) == Some(n),
    decreases n - from,
{
    if from < n {
        lemma_places_increase(s, from, n);
        lemma_index_from(s, position, n, from + 1);
    }
}

/// Every position that is a place in a text is found there: lines and columns
/// name each place of a text once.
pub proof fn law_positions_name_places(s: Seq<char>, position: Position, n: int)
    requires
        0 <= n <= s.len(),
        place_after(s, n) == (position.line as nat, position.character as nat),
    ensures
        index_of_position(s, position) == Some(n),
{
    lemma_index_from(s, position, n, 0);
}

/// The number of characters before `position`.
fn position_to_index(s: &Vec<char>, position: Position) -> (r: Option<usize>)
    ensures
        index(r) == index_of_position(s@, position),
        r matches Some(n) ==> n <= s@.len(),
{
    let mut at = Walk::new();
    let mut n: usize = 0;
    loop
        invariant
            n <= s@.len(),
            at.is_at(s@, n as int),
            index_of_position(s@, position) == index_from(s@, position, n as int),
        decreases s@.len() - n,
    {
        if at.line == position.line as u128 && at.column == position.character as u128 {
            return Some(n);
        }
        if n == s.len() {
            return None;
        }
        at.pass(s, n);
        n += 1;
    }
}

/// Where the name begins that ends at `n`.
fn find_name_start(s: &Vec<char>, n: usize) -> (r: usize)
    requires
        n <= s@.len(),
    ensures
        r == name_start(s@, n as int),
        r <= n,
{
    let mut i: usize = n;
    while i > 0 && is_name_char(s[i - 1])
        invariant
            i <= n <= s@.len(),
            name_start(s@, i as int) == name_start(s@, n as int),
        decreases i,
    {
        i -= 1;
    }
    i
}

/// The name before the dot before the part of a name at `position`.
pub fn alias_before_dot(source: &str, position: Position) -> (r: Option<String>)
    ensures
        opt_view(r) == name_before_dot(source@, position),
{
    let s = chars(source);
    let n = match position_to_index(&s, position) {
        Some(n) => n,
        None => {
            return None;
        },
    };
    let i = find_name_start(&s, n);
    if i == 0 || s[i - 1] != '.' {
        return None;
    }
    let start = find_name_start(&s, i - 1);
    if start == i - 1 {
        return None;
    }
    Some(string(slice_subrange(&s, start, i - 1)))
}

/// The name whose members are asked for at `position`.
fn alias_at_completion(state: &FileState, position: Position) -> (r: Option<String>)
    ensures
        opt_view(r) == completed_name(state@, position),
{
    if let Some(i) = identifier_at(state, position) {
        if let Some(o) = find_selected_from(&state.tree, i) {
            if let Some(name) = state.tree.text(state.source.as_str(), o) {
                return Some(name.to_string());
            }
        }
    }
    alias_before_dot(state.source.as_str(), position)
}

/// The imported module whose members are asked for at `position`: what has to
/// be read before they can be offered.
pub fn completion_target(state: &FileState, position: Position) -> (r: Option<String>)
    ensures
        opt_view(r) == completed_module(state@, position),
{
    let alias = match alias_at_completion(state, position) {
        Some(a) => a,
        None => {
            return None;
        },
    };
    let module = match state.import(alias.as_str()) {
        Some(m) => m.module.clone(),
        None => {
            return None;
        },
    };
    if uri_to_path(state.uri.as_str()).is_none() {
        return None;
    }
    Some(module)
}

/// A copy of an optional text.
fn copy_option(s: &Option<String>) -> (r: Option<String>)
    ensures
        opt_view(r) == opt_view(*s),
{
    match s {
        Some(t) => Some(t.clone()),
        None => None,
    }
}

/// What is offered for a member.
fn to_completion_item(m: &ExportMember) -> (r: CompletionItem)
    ensures
        r@ == item_of(m@),
{
    let detail = match &m.signature {
        Some(s) => {
            let mut t = chars(m.name.as_str());
            push_text(&mut t, s.as_str());
            Some(string(&t))
        },
        None => None,
    };
    CompletionItem {
        label: m.name.clone(),
        kind: m.kind,
        detail,
        documentation: copy_option(&m.doc),
    }
}

/// The members of an imported module, where `position` is behind `alias.`.
/// `module` is the module, where it could be read.
pub fn completion(state: &FileState, position: Position, module: Option<&FileState>) -> (r: Option<
    Vec<CompletionItem>,
>)
    ensures
        completed(
            state@,
            position,
            match module {
                Some(m) => Some(m@),
                None => None,
            },
        ) == (match r {
            Some(v) => Some(items_view(v@)),
            None => None,
        }),
{
    if completion_target(state, position).is_none() {
        return None;
    }
    let module = match module {
        Some(m) => m,
        None => {
            return None;
        },
    };
    let ms = exports_with_tree(module.source.as_str(), &module.tree);
    if ms.len() == 0 {
        return None;
    }
    let ghost all = members_view(ms@).map_values(|x: ExportView| item_of(x));
    let mut out: Vec<CompletionItem> = Vec::new();
    let mut i: usize = 0;
    assert(items_view(out@) =~= all.take(0));
    while i < ms.len()
        invariant
            i <= ms@.len(),
            all == members_view(ms@).map_values(|x: ExportView| item_of(x)),
            items_view(out@) == all.take(i as int),
        decreases ms@.len() - i,
    {
        let item = to_completion_item(&ms[i]);
        let ghost before = items_view(out@);
        out.push(item);
        assert(items_view(out@) =~= before.push(item@));
        assert(all[i as int] == item@);
        assert(all.take(i + 1) =~= all.take(i as int).push(all[i as int]));
        i += 1;
    }
    assert(all.take(all.len() as int) =~= all);
    Some(out)
}

} // verus!
