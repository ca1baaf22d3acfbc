//! The outline of a document.

use vstd::prelude::*;
use vstd::string::*;

use crate::document::FileState;
use crate::exports::entry_key;
use crate::exports::exported;
use crate::exports::exports_with_tree;
use crate::exports::find_key;
use crate::exports::members_view;
use crate::exports::render_signature;
use crate::exports::signature_of;
use crate::exports::unquote;
use crate::exports::unquoted;
use crate::exports::ExportMember;
use crate::exports::ExportView;
use crate::exports::ItemKind;
use crate::lsp::Range;
use crate::places::range_of;
use crate::places::Places;
use crate::symbols::definition_at;
use crate::symbols::find_definition;
use crate::syntax::field_child;
use crate::syntax::index;
use crate::syntax::indices;
use crate::syntax::kids;
use crate::syntax::kind_child;
use crate::syntax::text_of;
use crate::syntax::NodeView;
use crate::syntax::SyntaxTree;
use crate::syntax::TreeView;
use crate::text::chars;
use crate::text::opt_view;
use crate::text::push_chars;
use crate::text::push_text;
use crate::text::string;

verus! {

/// What an entry of an outline is.
#[derive(Debug, Clone, Copy, PartialEq, Eq, Structural)]
pub enum LspKind {
    Module,
    Namespace,
    Method,
    Field,
    Function,
    Variable,
}

/// An entry of an outline, with the entries below it.
#[derive(Debug)]
pub struct DocumentSymbol {
    pub name: String,
    pub detail: Option<String>,
    pub kind: LspKind,
    /// The whole of what the entry stands for.
    pub range: Range,
    /// The name in it.
    pub selection_range: Range,
    /// The entries below this one; none rather than an empty list.
    pub children: Option<Vec<DocumentSymbol>>,
}

/// What a [`DocumentSymbol`] holds.
pub struct SymbolTree {
    pub name: Seq<char>,
    pub detail: Option<Seq<char>>,
    pub kind: LspKind,
    pub range: Range,
    pub selection_range: Range,
    pub children: Option<Seq<SymbolTree>>,
}

impl DocumentSymbol {
    /// What the entry holds.
    pub open spec fn tree(self) -> SymbolTree
        decreases self,
    {
        SymbolTree {
            name: self.name@,
            detail: opt_view(self.detail),
            kind: self.kind,
            range: self.range,
            selection_range: self.selection_range,
            children: match self.children {
                Some(v) => Some(
                    Seq::new(
                        v@.len(),
                        |i: int|
                            if 0 <= i < v@.len() {
                                v@[i].tree()
                            } else {
                                arbitrary()
                            },
                    ),
                ),
                None => None,
            },
        }
    }
}

/// What a list of entries holds.
pub open spec fn trees(v: Seq<DocumentSymbol>) -> Seq<SymbolTree> {
    v.map_values(|s: DocumentSymbol| s.tree())
}

/// The children of an entry.
proof fn lemma_children(s: DocumentSymbol)
    ensures
        match s.children {
            Some(v) => s.tree().children == Some(trees(v@)),
            None => s.tree().children is None,
        },
{
    if let Some(v) = s.children {
        assert(s.tree().children->0 =~= trees(v@));
    }
}

/// The list, where it is not empty.
pub open spec fn unless_none(v: Seq<SymbolTree>) -> Option<Seq<SymbolTree>> {
    if v.len() == 0 {
        None
    } else {
        Some(v)
    }
}

/// The first node behind the subtree of `i`, looked for from `j` on.
pub open spec fn end_from(ns: Seq<NodeView>, i: int, j: int) -> int
    decreases ns.len() - j,
{
    if j >= ns.len() || ns[j].depth <= ns[i].depth {
        j
    } else {
        end_from(ns, i, j + 1)
    }
}

/// The first node behind the subtree of `i`.
pub open spec fn subtree_end(ns: Seq<NodeView>, i: int) -> int {
    end_from(ns, i, i + 1)
}

/// The name of the method at node `i`, an entry `name: func(...)` of a map,
/// with the nodes of its key and its function.
pub open spec fn method_at(source: Seq<char>, ns: Seq<NodeView>, i: int) -> Option<(Seq<char>, int, int)> {
    match (entry_key(ns, i), field_child(ns, i, "value"@)) {
        (Some(k), Some(v)) => if ns[k].kind == "identifier"@ && ns[v].kind == "func_literal"@ {
            match text_of(source, ns[k]) {
                Some(name) => Some((name, k, v)),
                None => None,
            }
        } else {
            None
        },
        _ => None,
    }
}

/// The methods among the nodes from `j` to `end`. What lies inside a method
/// counts as its own.
pub open spec fn methods_from(source: Seq<char>, ns: Seq<NodeView>, j: int, end: int) -> Seq<SymbolTree>
    decreases ns.len() - j,
{
    if j < 0 || j >= end || j >= ns.len() {
        seq![]
    } else {
        match method_at(source, ns, j) {
            Some((name, k, v)) => if j < v < ns.len() && j < subtree_end(ns, j) <= ns.len() {
                let entry = SymbolTree {
                    name,
                    detail: Some(signature_of(source, ns, v)),
                    kind: LspKind::Method,
                    range: range_of(source, ns[j]),
                    selection_range: range_of(source, ns[k]),
                    children: unless_none(methods_from(source, ns, v, subtree_end(ns, v))),
                };
                seq![entry] + methods_from(source, ns, subtree_end(ns, j), end)
            } else {
                seq![]
            },
            None => methods_from(source, ns, j + 1, end),
        }
    }
}

/// The methods in the value at node `v`.
pub open spec fn methods_of(source: Seq<char>, ns: Seq<NodeView>, v: Option<int>) -> Seq<SymbolTree> {
    match v {
        Some(v) => methods_from(source, ns, v, subtree_end(ns, v)),
        None => seq![],
    }
}

/// What a top-level name is that is bound to the value at node `v`, and what
/// is said of it.
pub open spec fn outline_of_value(source: Seq<char>, ns: Seq<NodeView>, v: Option<int>) -> (
    LspKind,
    Option<Seq<char>>,
) {
    match v {
        Some(v) => if ns[v].kind == "func_literal"@ {
            (LspKind::Function, Some(signature_of(source, ns, v)))
        } else if ns[v].kind == "import_expression"@ {
            (
                LspKind::Module,
                match kind_child(ns, v, "string_literal"@) {
                    Some(s) => match text_of(source, ns[s]) {
                        Some(t) => Some("import \""@ + unquoted(t) + "\""@),
                        None => None,
                    },
                    None => None,
                },
            )
        } else {
            (LspKind::Variable, None)
        },
        None => (LspKind::Variable, None),
    }
}

/// The entry for the name that statement `c` defines.
pub open spec fn declared_at(source: Seq<char>, ns: Seq<NodeView>, c: int) -> Option<SymbolTree> {
    match definition_at(ns, c) {
        Some((n, v)) => match text_of(source, ns[n]) {
            Some(name) => Some(
                SymbolTree {
                    name,
                    detail: outline_of_value(source, ns, v).1,
                    kind: outline_of_value(source, ns, v).0,
                    range: range_of(source, ns[c]),
                    selection_range: range_of(source, ns[n]),
                    children: unless_none(methods_of(source, ns, v)),
                },
            ),
            None => None,
        },
        None => None,
    }
}

/// The entry for an exported member.
pub open spec fn exported_entry(m: ExportView) -> SymbolTree {
    SymbolTree {
        name: m.name,
        detail: m.signature,
        kind: match m.kind {
            ItemKind::Function => LspKind::Function,
            ItemKind::Variable => LspKind::Field,
        },
        range: m.key_range,
        selection_range: m.key_range,
        children: None,
    }
}

/// The decimal digits.
pub open spec fn digits() -> Seq<char> {
    seq!['0', '1', '2', '3', '4', '5', '6', '7', '8', '9']
}

/// A number in decimal.
pub open spec fn decimal(n: nat) -> Seq<char>
    decreases n,
{
    if n < 10 {
        seq![digits()[n as int]]
    } else {
        decimal(n / 10).push(digits()[(n % 10) as int])
    }
}

/// The group of the exported members.
pub open spec fn export_group(ms: Seq<ExportView>) -> Option<SymbolTree> {
    if ms.len() == 0 {
        None
    } else {
        let range = Range { start: ms[0].key_range.start, end: ms.last().key_range.end };
        Some(
            SymbolTree {
                name: "export"@,
                detail: Some(
                    decimal(ms.len()) + (if ms.len() == 1 {
                        " member"@
                    } else {
                        " members"@
                    }),
                ),
                kind: LspKind::Namespace,
                range,
                selection_range: range,
                children: Some(ms.map_values(|m: ExportView| exported_entry(m))),
            },
        )
    }
}

/// The entry for the top-level statement `c`.
pub open spec fn entry_at(source: Seq<char>, tree: TreeView, c: int) -> Option<SymbolTree> {
    if tree.nodes[c].kind == "export_statement"@ {
        export_group(exported(source, tree))
    } else {
        declared_at(source, tree.nodes, c)
    }
}

/// The entries for the statements `cs`.
pub open spec fn entries_of(source: Seq<char>, tree: TreeView, cs: Seq<int>) -> Seq<SymbolTree>
    decreases cs.len(),
{
    if cs.len() == 0 {
        seq![]
    } else {
        let rest = entries_of(source, tree, cs.drop_last());
        match entry_at(source, tree, cs.last()) {
            Some(e) => rest.push(e),
            None => rest,
        }
    }
}

/// The outline of a text: the names that it defines at the top level and the
/// members that it exports, in the order of the text.
pub open spec fn outlined(source: Seq<char>, tree: TreeView) -> Option<Seq<SymbolTree>> {
    if tree.nodes.len() == 0 {
        None
    } else {
        unless_none(entries_of(source, tree, kids(tree.nodes, 0)))
    }
}

/// Every entry of an outline stands for a statement at the top level; names
/// that are local to a function have none.
pub proof fn law_outline_is_top_level(source: Seq<char>, tree: TreeView, cs: Seq<int>, i: int)
    requires
        0 <= i < entries_of(source, tree, cs).len(),
    ensures
        exists|k: int|
            0 <= k < cs.len() && entry_at(source, tree, #[trigger] cs[k]) == Some(
                entries_of(source, tree, cs)[i],
            ),
    decreases cs.len(),
{
    if cs.len() > 0 {
        let front = cs.drop_last();
        let rest = entries_of(source, tree, front);
        if i < rest.len() {
            law_outline_is_top_level(source, tree, front, i);
            let k = choose|k: int|
                0 <= k < front.len() && entry_at(source, tree, #[trigger] front[k]) == Some(rest[i]);
            assert(cs[k] == front[k]);
        } else {
            assert(cs[cs.len() - 1] == cs.last());
        }
    }
}

/// The first node behind the subtree of `i`.
fn find_end(tree: &SyntaxTree, i: usize) -> (r: usize)
    requires
        tree.has(i),
    ensures
        r == subtree_end(tree@.nodes, i as int),
        i < r <= tree.nodes@.len(),
{
    let n = tree.nodes.len();
    let mut j: usize = i + 1;
    while j < n && tree.nodes[j].depth > tree.nodes[i].depth
        invariant
            i < j <= n == tree.nodes@.len(),
            subtree_end(tree@.nodes, i as int) == end_from(tree@.nodes, i as int, j as int),
        decreases n - j,
    {
        j += 1;
    }
    j
}

/// The key and the function of the method at node `i`.
fn find_method(source: &str, tree: &SyntaxTree, i: usize) -> (r: Option<(usize, usize)>)
    requires
        tree.has(i),
    ensures
        match r {
            Some((k, v)) => tree.has(k) && tree.has(v) && i < v && text_of(
                source@,
                tree@.nodes[k as int],
            ) is Some && method_at(source@, tree@.nodes, i as int) == Some(
                (text_of(source@, tree@.nodes[k as int])->0, k as int, v as int),
            ),
            None => method_at(source@, tree@.nodes, i as int) is None,
        },
{
    let k = match find_key(tree, i) {
        Some(k) => k,
        None => {
            return None;
        },
    };
    let v = match tree.child_by_field_name(i, "value") {
        Some(v) => v,
        None => {
            return None;
        },
    };
    if tree.is(k, "identifier") && tree.is(v, "func_literal") && tree.text(source, k).is_some() {
        Some((k, v))
    } else {
        None
    }
}

/// The list, where it is not empty.
fn some_unless_empty(v: Vec<DocumentSymbol>) -> (r: Option<Vec<DocumentSymbol>>)
    ensures
        unless_none(trees(v@)) == (match r {
            Some(x) => Some(trees(x@)),
            None => None,
        }),
{
    if v.len() == 0 {
        None
    } else {
        Some(v)
    }
}

/// The methods among the nodes from `from` to `end`.
fn collect_method_entries(
    source: &str,
    places: &Places,
    tree: &SyntaxTree,
    from: usize,
    end: usize,
) -> (r: Vec<DocumentSymbol>)
    requires
        places.are_of(source@),
        end <= tree.nodes@.len(),
    ensures
        trees(r@) == methods_from(source@, tree@.nodes, from as int, end as int),
    decreases tree.nodes@.len() - from,
{
    let ghost ns = tree@.nodes;
    let ghost all = methods_from(source@, ns, from as int, end as int);
    let mut out: Vec<DocumentSymbol> = Vec::new();
    let mut j: usize = from;
    assert(trees(out@) + all =~= all);
    while j < end
        invariant
            from <= j,
            places.are_of(source@),
            end <= tree.nodes@.len(),
            ns == tree@.nodes,
            all == methods_from(source@, ns, from as int, end as int),
            trees(out@) + methods_from(source@, ns, j as int, end as int) == all,
        decreases end - j,
    {
        match find_method(source, tree, j) {
            Some((k, v)) => {
                let inner = collect_method_entries(source, places, tree, v, find_end(tree, v));
                let entry = DocumentSymbol {
                    name: tree.text_or_empty(source, k).to_string(),
                    detail: Some(render_signature(source, tree, v)),
                    kind: LspKind::Method,
                    range: places.range(&tree.nodes[j], Ghost(source@)),
                    selection_range: places.range(&tree.nodes[k], Ghost(source@)),
                    children: some_unless_empty(inner),
                };
                let next = find_end(tree, j);
                proof {
                    lemma_children(entry);
                    let before = trees(out@);
                    let rest = methods_from(source@, ns, next as int, end as int);
                    assert(methods_from(source@, ns, j as int, end as int) == seq![entry.tree()]
                        + rest);
                    assert(before + (seq![entry.tree()] + rest) =~= before.push(entry.tree()) + rest);
                    assert(trees(out@.push(entry)) =~= before.push(entry.tree()));
                }
                out.push(entry);
                if next >= end {
                    proof {
                        let rest = methods_from(source@, ns, next as int, end as int);
                        assert(trees(out@) + rest =~= trees(out@));
                    }
                    return out;
                }
                j = next;
            },
            None => {
                j += 1;
            },
        }
    }
    assert(trees(out@) + Seq::<SymbolTree>::empty() =~= trees(out@));
    out
}

/// What a top-level name is that is bound to the value at node `v`, and what
/// is said of it.
fn classify_value(source: &str, tree: &SyntaxTree, v: Option<usize>) -> (r: (LspKind, Option<String>))
    requires
        v matches Some(x) ==> tree.has(x),
    ensures
        (r.0, opt_view(r.1)) == outline_of_value(source@, tree@.nodes, index(v)),
{
    let v = match v {
        Some(v) => v,
        None => {
            return (LspKind::Variable, None);
        },
    };
    if tree.is(v, "func_literal") {
        return (LspKind::Function, Some(render_signature(source, tree, v)));
    }
    if !tree.is(v, "import_expression") {
        return (LspKind::Variable, None);
    }
    let s = match tree.child_of_kind(v, "string_literal") {
        Some(s) => s,
        None => {
            return (LspKind::Module, None);
        },
    };
    match tree.text(source, s) {
        Some(t) => {
            let mut out = chars("import \"");
            push_chars(&mut out, &unquote(t));
            push_text(&mut out, "\"");
            (LspKind::Module, Some(string(&out)))
        },
        None => (LspKind::Module, None),
    }
}

/// The entry for the name that statement `c` defines.
fn build_decl_symbol(source: &str, places: &Places, tree: &SyntaxTree, c: usize) -> (r: Option<
    DocumentSymbol,
>)
    requires
        places.are_of(source@),
        tree.has(c),
    ensures
        match r {
            Some(s) => declared_at(source@, tree@.nodes, c as int) == Some(s.tree()),
            None => declared_at(source@, tree@.nodes, c as int) is None,
        },
{
    let (n, v) = match find_definition(tree, c) {
        Some(d) => d,
        None => {
            return None;
        },
    };
    let name = match tree.text(source, n) {
        Some(t) => t.to_string(),
        None => {
            return None;
        },
    };
    let (kind, detail) = classify_value(source, tree, v);
    let methods = match v {
        Some(v) => collect_method_entries(source, places, tree, v, find_end(tree, v)),
        None => {
            let none: Vec<DocumentSymbol> = Vec::new();
            assert(trees(none@) =~= seq![]);
            none
        },
    };
    let entry = DocumentSymbol {
        name,
        detail,
        kind,
        range: places.range(&tree.nodes[c], Ghost(source@)),
        selection_range: places.range(&tree.nodes[n], Ghost(source@)),
        children: some_unless_empty(methods),
    };
    proof {
        lemma_children(entry);
    }
    Some(entry)
}

/// A number in decimal.
fn write_decimal(n: usize) -> (r: Vec<char>)
    ensures
        r@ == decimal(n as nat),
    decreases n,
{
    let all = ['0', '1', '2', '3', '4', '5', '6', '7', '8', '9'];
    assert(all@ =~= digits());
    if n < 10 {
        let r = vec![all[n]];
        assert(r@ =~= decimal(n as nat));
        r
    } else {
        let mut r = write_decimal(n / 10);
        r.push(all[n % 10]);
        r
    }
}

/// The entry for an exported member.
fn exported_symbol(m: &ExportMember) -> (r: DocumentSymbol)
    ensures
        r.tree() == exported_entry(m@),
{
    DocumentSymbol {
        name: m.name.clone(),
        detail: match &m.signature {
            Some(s) => Some(s.clone()),
            None => None,
        },
        kind: match m.kind {
            ItemKind::Function => LspKind::Function,
            ItemKind::Variable => LspKind::Field,
        },
        range: m.key_range,
        selection_range: m.key_range,
        children: None,
    }
}

/// The group of the exported members.
fn build_export_group(ms: &Vec<ExportMember>) -> (r: Option<DocumentSymbol>)
    ensures
        match r {
            Some(s) => export_group(members_view(ms@)) == Some(s.tree()),
            None => export_group(members_view(ms@)) is None,
        },
{
    let n = ms.len();
    if n == 0 {
        return None;
    }
    let ghost all = members_view(ms@);
    let ghost want = all.map_values(|m: ExportView| exported_entry(m));
    let mut children: Vec<DocumentSymbol> = Vec::new();
    let mut i: usize = 0;
    assert(trees(children@) =~= want.take(0));
    while i < n
        invariant
            i <= n == ms@.len(),
            all == members_view(ms@),
            want == all.map_values(|m: ExportView| exported_entry(m)),
            trees(children@) == want.take(i as int),
        decreases n - i,
    {
        let s = exported_symbol(&ms[i]);
        let ghost before = trees(children@);
        children.push(s);
        assert(trees(children@) =~= before.push(s.tree()));
        assert(want.take(i + 1) =~= want.take(i as int).push(want[i as int]));
        i += 1;
    }
    assert(want.take(want.len() as int) =~= want);
    let range = Range { start: ms[0].key_range.start, end: ms[n - 1].key_range.end };
    let mut detail = write_decimal(n);
    push_text(
        &mut detail,
        if n == 1 {
            " member"
        } else {
            " members"
        },
    );
    let group = DocumentSymbol {
        name: "export".to_string(),
        detail: Some(string(&detail)),
        kind: LspKind::Namespace,
        range,
        selection_range: range,
        children: Some(children),
    };
    proof {
        lemma_children(group);
        assert(all[0] == ms@[0]@);
        assert(all.last() == ms@[n - 1]@);
    }
    Some(group)
}

/// The outline of a document: the functions, variables and imports that it
/// defines at the top level, and a group of what it exports, in the order of
/// the text. Functions in maps are methods of what holds them.
pub fn document_symbols(state: &FileState) -> (r: Option<Vec<DocumentSymbol>>)
    ensures
        outlined(state@.source, state@.tree) == (match r {
            Some(v) => Some(trees(v@)),
            None => None,
        }),
{
    let tree = &state.tree;
    let source = state.source.as_str();
    if tree.nodes.len() == 0 {
        return None;
    }
    let cs = tree.children(0);
    let places = Places::of(source);
    let ghost all = kids(tree@.nodes, 0);
    let mut out: Vec<DocumentSymbol> = Vec::new();
    let mut i: usize = 0;
    assert(all.take(0) =~= seq![]);
    assert(trees(out@) =~= seq![]);
    while i < cs.len()
        invariant
            i <= cs@.len(),
            all == indices(cs@),
            places.are_of(source@),
            forall|k: int| 0 <= k < cs@.len() ==> #[trigger] cs@[k] < tree.nodes@.len(),
            trees(out@) == entries_of(source@, tree@, all.take(i as int)),
        decreases cs@.len() - i,
    {
        let c = cs[i];
        assert(all.take(i + 1).drop_last() =~= all.take(i as int));
        assert(all.take(i + 1).last() == c);
        let entry = if tree.is(c, "export_statement") {
            build_export_group(&exports_with_tree(source, tree))
        } else {
            build_decl_symbol(source, &places, tree, c)
        };
        if let Some(s) = entry {
            let ghost before = trees(out@);
            out.push(s);
            assert(trees(out@) =~= before.push(s.tree()));
        }
        i += 1;
    }
    assert(all.take(all.len() as int) =~= all);
    some_unless_empty(out)
}

} // verus!
