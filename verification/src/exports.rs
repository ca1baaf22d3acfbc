//! What a module exports: the members of its top-level `export { ... }` map.

use vstd::prelude::*;
use vstd::string::*;

use crate::grammar::parse;
use crate::grammar::parsed;
use crate::lsp::Range;
use crate::places::node_to_lsp_range;
use crate::places::range_of;
use crate::places::Places;
use crate::syntax::field_child;
use crate::syntax::first_within;
use crate::syntax::index;
use crate::syntax::indices;
use crate::syntax::kids;
use crate::syntax::kind_child;
use crate::syntax::named_child;
use crate::syntax::parent_of;
use crate::syntax::sibling_before;
use crate::syntax::text_of;
use crate::syntax::text_or_empty;
use crate::syntax::Node;
use crate::syntax::NodeView;
use crate::syntax::SyntaxTree;
use crate::syntax::TreeView;
use crate::text::chars;
use crate::text::copy;
use crate::text::drop_empty;
use crate::text::join;
use crate::text::joined;
use crate::text::lines;
use crate::text::lines_of;
use crate::text::opt_view;
use crate::text::push_chars;
use crate::text::push_text;
use crate::text::same;
use crate::text::same_str;
use crate::text::string;
use crate::text::strip_prefix;
use crate::text::strip_suffix;
use crate::text::texts;
use crate::text::trim;
use crate::text::trim_of;
use crate::text::trim_start;
use crate::text::trimmed;
use crate::text::trimmed_of;
use crate::text::trimmed_start;
use crate::text::without_head;
use crate::text::without_tail;
use crate::text::Class;
use crate::text_facts::lemma_texts_push;

verus! {

/// What an exported member is.
#[derive(Debug, Clone, Copy, PartialEq, Eq, Structural)]
pub enum ItemKind {
    Function,
    Variable,
}

/// A member of a module's `export { ... }` map.
#[derive(Debug)]
pub struct ExportMember {
    pub name: String,
    /// Where the key stands.
    pub key_range: Range,
    pub kind: ItemKind,
    /// The parameters of a function, such as `(a, b, ...rest)`.
    pub signature: Option<String>,
    /// The doc comment, without comment signs, its lines joined by line feeds.
    pub doc: Option<String>,
}

/// What an [`ExportMember`] holds.
pub struct ExportView {
    pub name: Seq<char>,
    pub key_range: Range,
    pub kind: ItemKind,
    pub signature: Option<Seq<char>>,
    pub doc: Option<Seq<char>>,
}

impl View for ExportMember {
    type V = ExportView;

    open spec fn view(&self) -> ExportView {
        ExportView {
            name: self.name@,
            key_range: self.key_range,
            kind: self.kind,
            signature: opt_view(self.signature),
            doc: opt_view(self.doc),
        }
    }
}

/// The views of a list of members.
pub open spec fn members_view(ms: Seq<ExportMember>) -> Seq<ExportView> {
    ms.map_values(|m: ExportMember| m@)
}

/// The map that a module exports: the first in its first top-level `export`,
/// bare or wrapped in a call.
pub open spec fn export_map(ns: Seq<NodeView>) -> Option<int> {
    if ns.len() == 0 {
        None
    } else {
        match kind_child(ns, 0, "export_statement"@) {
            Some(e) => first_within(ns, e, "map_literal"@),
            None => None,
        }
    }
}

/// The entries of the map that a module exports.
pub open spec fn export_entries(ns: Seq<NodeView>) -> Seq<int> {
    match export_map(ns) {
        Some(m) => kids(ns, m),
        None => seq![],
    }
}

/// Whether statement `c` is an assignment with `:=`.
pub open spec fn declares(ns: Seq<NodeView>, c: int) -> bool {
    match field_child(ns, c, "operator"@) {
        Some(o) => ns[o].kind == ":="@,
        None => false,
    }
}

/// The name that statement `c` binds, and the value that it binds it to.
pub open spec fn binding(ns: Seq<NodeView>, c: int) -> Option<(int, Option<int>)> {
    if ns[c].kind == "var_declaration"@ {
        match field_child(ns, c, "name"@) {
            Some(n) => Some((n, field_child(ns, c, "value"@))),
            None => None,
        }
    } else if ns[c].kind == "assignment_statement"@ && declares(ns, c) {
        match field_child(ns, c, "left"@) {
            Some(n) => Some((n, field_child(ns, c, "right"@))),
            None => None,
        }
    } else {
        None
    }
}

/// The function that statement `c` binds to the identifier `name`.
pub open spec fn bound_function(source: Seq<char>, ns: Seq<NodeView>, c: int, name: Seq<char>) -> Option<
    int,
> {
    match binding(ns, c) {
        Some((n, Some(v))) => if ns[n].kind == "identifier"@ && text_or_empty(source, ns[n]) == name
            && ns[v].kind == "func_literal"@ {
            Some(v)
        } else {
            None
        },
        _ => None,
    }
}

/// The first of the statements `cs` that binds `name` to a function, with the
/// function.
pub open spec fn function_among(
    source: Seq<char>,
    ns: Seq<NodeView>,
    cs: Seq<int>,
    name: Seq<char>,
) -> Option<(int, int)>
    decreases cs.len(),
{
    if cs.len() == 0 {
        None
    } else {
        match bound_function(source, ns, cs[0], name) {
            Some(v) => Some((cs[0], v)),
            None => function_among(source, ns, cs.drop_first(), name),
        }
    }
}

/// The text of a parameter; other nodes have none.
pub open spec fn param_text(source: Seq<char>, ns: Seq<NodeView>, p: int) -> Option<Seq<char>> {
    if !ns[p].named {
        None
    } else if ns[p].kind == "identifier"@ {
        Some(text_or_empty(source, ns[p]))
    } else if ns[p].kind == "variadic_parameter"@ {
        Some("..."@ + (match named_child(ns, p) {
            Some(i) => text_or_empty(source, ns[i]),
            None => seq![],
        }))
    } else {
        None
    }
}

/// The parameters among the nodes `ps`.
pub open spec fn params_among(source: Seq<char>, ns: Seq<NodeView>, ps: Seq<int>) -> Seq<Seq<char>>
    decreases ps.len(),
{
    if ps.len() == 0 {
        seq![]
    } else {
        let rest = params_among(source, ns, ps.drop_last());
        match param_text(source, ns, ps.last()) {
            Some(t) => rest.push(t),
            None => rest,
        }
    }
}

/// The parameters in the parameter lists among the nodes `cs`.
pub open spec fn params_of(source: Seq<char>, ns: Seq<NodeView>, cs: Seq<int>) -> Seq<Seq<char>>
    decreases cs.len(),
{
    if cs.len() == 0 {
        seq![]
    } else {
        let rest = params_of(source, ns, cs.drop_last());
        if ns[cs.last()].kind == "parameter_list"@ {
            rest + params_among(source, ns, kids(ns, cs.last()))
        } else {
            rest
        }
    }
}

/// The signature of function `f`: its parameters in brackets.
pub open spec fn signature_of(source: Seq<char>, ns: Seq<NodeView>, f: int) -> Seq<char> {
    "("@ + joined(params_of(source, ns, kids(ns, f)), ", "@) + ")"@
}

/// What stands between `open` and `*/` in a text that begins and ends with
/// them.
pub open spec fn between(text: Seq<char>, open: Seq<char>) -> Option<Seq<char>> {
    let rest = text.skip(open.len() as int);
    if open.is_prefix_of(text) && "*/"@.is_suffix_of(rest) {
        Some(rest.take(rest.len() - 2))
    } else {
        None
    }
}

/// What a block comment holds between its signs. A text without the sign at
/// its start may still have the one at its end.
pub open spec fn block_inner(text: Seq<char>) -> Seq<char> {
    match between(text, "/**"@) {
        Some(inner) => inner,
        None => match between(text, "/*"@) {
            Some(inner) => inner,
            None => if "*/"@.is_suffix_of(text) && !"/*"@.is_prefix_of(text) {
                text.take(text.len() - 2)
            } else {
                text
            },
        },
    }
}

/// A line of a block comment, without white space and stars before its text.
pub open spec fn block_line(line: Seq<char>) -> Seq<char> {
    trimmed(trimmed_start(trimmed(line), Class::Only('*')))
}

/// The lines joined by line feeds; nothing where there are none.
pub open spec fn doc_of_lines(lines: Seq<Seq<char>>) -> Option<Seq<char>> {
    if lines.len() == 0 {
        None
    } else {
        Some(joined(lines, "\n"@))
    }
}

/// The text of a block comment.
pub open spec fn block_doc(text: Seq<char>) -> Option<Seq<char>> {
    let lines = lines_of(block_inner(text)).map_values(|l: Seq<char>| block_line(l));
    doc_of_lines(without_tail(without_head(lines)))
}

/// Whether node `p` is a comment that ends in the row before `row`.
pub open spec fn comment_above(ns: Seq<NodeView>, p: int, row: usize) -> bool {
    ns[p].kind == "comment"@ && ns[p].end.row + 1 == row
}

/// The text of a line comment.
pub open spec fn line_text(text: Seq<char>) -> Seq<char> {
    trimmed_start(trimmed_start(text, Class::Only('/')), Class::Space)
}

/// The line comments right above node `i`, whose first line is `row`.
pub open spec fn lines_above(source: Seq<char>, ns: Seq<NodeView>, i: int, row: usize) -> Seq<
    Seq<char>,
>
    decreases i,
{
    match sibling_before(ns, i) {
        Some(p) => if 0 <= p < i && comment_above(ns, p, row) && "//"@.is_prefix_of(
            text_or_empty(source, ns[p]),
        ) {
            lines_above(source, ns, p, ns[p].start.row).push(
                line_text(text_or_empty(source, ns[p])),
            )
        } else {
            seq![]
        },
        None => seq![],
    }
}

/// The doc comment of node `i`: the block comment or the line comments right
/// above it.
pub open spec fn doc_of(source: Seq<char>, ns: Seq<NodeView>, i: int) -> Option<Seq<char>> {
    match sibling_before(ns, i) {
        Some(p) => {
            let text = text_or_empty(source, ns[p]);
            if !comment_above(ns, p, ns[i].start.row) {
                None
            } else if "/*"@.is_prefix_of(text) {
                block_doc(text)
            } else if "//"@.is_prefix_of(text) {
                doc_of_lines(lines_above(source, ns, i, ns[i].start.row))
            } else {
                None
            }
        },
        None => None,
    }
}

/// A value in the export map, resolved.
#[verifier::ext_equal]
pub struct Resolved {
    pub kind: ItemKind,
    pub signature: Option<Seq<char>>,
    /// The node whose comments document the value.
    pub anchor: Option<int>,
}

/// What the value of an export is: a function written in place, the function
/// that a top-level statement binds to the identifier, or a variable.
pub open spec fn resolved(source: Seq<char>, ns: Seq<NodeView>, value: Option<int>) -> Resolved {
    let plain = Resolved { kind: ItemKind::Variable, signature: None, anchor: None };
    match value {
        Some(v) => if ns[v].kind == "func_literal"@ {
            Resolved {
                kind: ItemKind::Function,
                signature: Some(signature_of(source, ns, v)),
                anchor: parent_of(ns, v),
            }
        } else if ns[v].kind == "identifier"@ {
            match function_among(source, ns, kids(ns, 0), text_or_empty(source, ns[v])) {
                Some((c, f)) => Resolved {
                    kind: ItemKind::Function,
                    signature: Some(signature_of(source, ns, f)),
                    anchor: Some(c),
                },
                None => plain,
            }
        } else {
            plain
        },
        None => plain,
    }
}

/// The key of entry `e` of a map.
pub open spec fn entry_key(ns: Seq<NodeView>, e: int) -> Option<int> {
    if ns[e].kind == "map_entry"@ {
        field_child(ns, e, "key"@)
    } else {
        None
    }
}

/// A key without its quotes.
pub open spec fn unquoted(text: Seq<char>) -> Seq<char> {
    trimmed_of(text, Class::Only('"'))
}

/// The member that entry `e` of the export map gives.
pub open spec fn member_of(source: Seq<char>, ns: Seq<NodeView>, e: int) -> Option<ExportView> {
    match entry_key(ns, e) {
        Some(k) => match text_of(source, ns[k]) {
            Some(text) => {
                let v = resolved(source, ns, field_child(ns, e, "value"@));
                Some(
                    ExportView {
                        name: unquoted(text),
                        key_range: range_of(source, ns[k]),
                        kind: v.kind,
                        signature: v.signature,
                        doc: match v.anchor {
                            Some(a) => doc_of(source, ns, a),
                            None => None,
                        },
                    },
                )
            },
            None => None,
        },
        None => None,
    }
}

/// The members that the entries `es` give.
pub open spec fn members_of(source: Seq<char>, ns: Seq<NodeView>, es: Seq<int>) -> Seq<ExportView>
    decreases es.len(),
{
    if es.len() == 0 {
        seq![]
    } else {
        let rest = members_of(source, ns, es.drop_last());
        match member_of(source, ns, es.last()) {
            Some(m) => rest.push(m),
            None => rest,
        }
    }
}

/// The members that a module exports.
pub open spec fn exported(source: Seq<char>, tree: TreeView) -> Seq<ExportView> {
    members_of(source, tree.nodes, export_entries(tree.nodes))
}

/// The name that entry `e` of the export map is exported under.
pub open spec fn entry_name(source: Seq<char>, ns: Seq<NodeView>, e: int) -> Option<Seq<char>> {
    match entry_key(ns, e) {
        Some(k) => match text_of(source, ns[k]) {
            Some(text) => Some(unquoted(text)),
            None => None,
        },
        None => None,
    }
}

/// The first of the entries `es` with the key `member`.
pub open spec fn entry_among(source: Seq<char>, ns: Seq<NodeView>, es: Seq<int>, member: Seq<char>) -> Option<
    int,
>
    decreases es.len(),
{
    if es.len() == 0 {
        None
    } else if entry_name(source, ns, es[0]) == Some(member) {
        Some(es[0])
    } else {
        entry_among(source, ns, es.drop_first(), member)
    }
}

/// The entry under which a module exports `member`.
pub open spec fn export_entry(source: Seq<char>, ns: Seq<NodeView>, member: Seq<char>) -> Option<int> {
    entry_among(source, ns, export_entries(ns), member)
}

/// Where a module exports `member`: the place of the key.
pub open spec fn export_key(source: Seq<char>, tree: TreeView, member: Seq<char>) -> Option<Range> {
    match export_entry(source, tree.nodes, member) {
        Some(e) => Some(range_of(source, tree.nodes[entry_key(tree.nodes, e)->0])),
        None => None,
    }
}

/// Whether the value of entry `e` is the identifier `member`.
pub open spec fn entry_value_is(source: Seq<char>, ns: Seq<NodeView>, e: int, member: Seq<char>) -> bool {
    match field_child(ns, e, "value"@) {
        Some(v) => ns[v].kind == "identifier"@ && text_or_empty(source, ns[v]) == member,
        None => false,
    }
}

/// Whether a module exports `member` as `member: member`.
pub open spec fn shorthand(source: Seq<char>, tree: TreeView, member: Seq<char>) -> bool {
    match export_entry(source, tree.nodes, member) {
        Some(e) => entry_value_is(source, tree.nodes, e, member),
        None => false,
    }
}

/// Whether entry `e` of the export map is `name: name`.
pub open spec fn names_itself(source: Seq<char>, ns: Seq<NodeView>, e: int, name: Seq<char>) -> bool {
    entry_name(source, ns, e) == Some(name) && entry_value_is(source, ns, e, name)
}

/// Whether a module exports `name` under some entry `name: name`.
pub open spec fn exports_itself(source: Seq<char>, tree: TreeView, name: Seq<char>) -> bool {
    let es = export_entries(tree.nodes);
    exists|i: int| 0 <= i < es.len() && names_itself(source, tree.nodes, #[trigger] es[i], name)
}

/// Whether node `i` is the key of an export `name: name`.
pub open spec fn shorthand_key(source: Seq<char>, ns: Seq<NodeView>, i: int) -> bool {
    match parent_of(ns, i) {
        Some(e) => entry_key(ns, e) == Some(i) && export_entries(ns).contains(e) && names_itself(
            source,
            ns,
            e,
            text_or_empty(source, ns[i]),
        ),
        None => false,
    }
}

/// The places of the keys `member` among the entries `es`.
pub open spec fn keys_among(source: Seq<char>, ns: Seq<NodeView>, es: Seq<int>, member: Seq<char>) -> Seq<
    Range,
>
    decreases es.len(),
{
    if es.len() == 0 {
        seq![]
    } else {
        let rest = keys_among(source, ns, es.drop_last(), member);
        if entry_name(source, ns, es.last()) == Some(member) {
            rest.push(range_of(source, ns[entry_key(ns, es.last())->0]))
        } else {
            rest
        }
    }
}

/// The places of all keys under which a module exports `member`.
pub open spec fn export_keys(source: Seq<char>, tree: TreeView, member: Seq<char>) -> Seq<Range> {
    keys_among(source, tree.nodes, export_entries(tree.nodes), member)
}

/// The members that a module exports, parsed with a grammar: none where it
/// does not parse.
pub open spec fn exported_by(language: tree_sitter::Language, source: Seq<char>) -> Seq<ExportView> {
    match parsed(language, source) {
        Some(t) => exported(source, t),
        None => seq![],
    }
}

/// Where a module exports `member`, parsed with a grammar.
pub open spec fn export_key_by(
    language: tree_sitter::Language,
    source: Seq<char>,
    member: Seq<char>,
) -> Option<Range> {
    match parsed(language, source) {
        Some(t) => export_key(source, t, member),
        None => None,
    }
}

/// The first member that is called `name`.
pub open spec fn first_member(ms: Seq<ExportView>, name: Seq<char>) -> Option<ExportView>
    decreases ms.len(),
{
    if ms.len() == 0 {
        None
    } else if ms[0].name == name {
        Some(ms[0])
    } else {
        first_member(ms.drop_first(), name)
    }
}

/// What the first entry gives comes first.
proof fn lemma_members_first(source: Seq<char>, ns: Seq<NodeView>, es: Seq<int>)
    requires
        es.len() > 0,
    ensures
        members_of(source, ns, es) == (match member_of(source, ns, es[0]) {
            Some(m) => seq![m],
            None => seq![],
        }) + members_of(source, ns, es.drop_first()),
    decreases es.len(),
{
    if es.len() == 1 {
        reveal_with_fuel(members_of, 2);
        assert(members_of(source, ns, es) =~= (match member_of(source, ns, es[0]) {
            Some(m) => seq![m],
            None => Seq::<ExportView>::empty(),
        }) + members_of(source, ns, es.drop_first()));
    } else {
        lemma_members_first(source, ns, es.drop_last());
        assert(es.drop_last().drop_first() =~= es.drop_first().drop_last());
        assert(es.drop_first().last() == es.last());
        let head = match member_of(source, ns, es[0]) {
            Some(m) => seq![m],
            None => Seq::<ExportView>::empty(),
        };
        let middle = members_of(source, ns, es.drop_first().drop_last());
        if let Some(m) = member_of(source, ns, es.last()) {
            assert((head + middle).push(m) =~= head + middle.push(m));
        }
    }
}

/// The first entry of a name gives the first member of that name.
pub proof fn lemma_entry_gives_member(
    source: Seq<char>,
    ns: Seq<NodeView>,
    es: Seq<int>,
    name: Seq<char>,
)
    ensures
        first_member(members_of(source, ns, es), name) == (match entry_among(source, ns, es, name) {
            Some(e) => member_of(source, ns, e),
            None => None,
        }),
        entry_among(source, ns, es, name) matches Some(e) ==> member_of(source, ns, e) is Some
            && es.contains(e),
    decreases es.len(),
{
    if es.len() > 0 {
        let rest = es.drop_first();
        lemma_entry_gives_member(source, ns, rest, name);
        lemma_members_first(source, ns, es);
        let tail = members_of(source, ns, rest);
        if let Some(e) = entry_among(source, ns, rest, name) {
            let j = choose|j: int| 0 <= j < rest.len() && rest[j] == e;
            assert(es[j + 1] == e);
        }
        assert(es.contains(es[0]));
        match member_of(source, ns, es[0]) {
            Some(m) => {
                assert((seq![m] + tail).drop_first() =~= tail);
            },
            None => {
                assert(Seq::<ExportView>::empty() + tail =~= tail);
            },
        }
    }
}

/// The key of a member is found where the first member of its name says that
/// it stands; only the keys of members are found.
pub proof fn law_members_have_keys(source: Seq<char>, tree: TreeView, name: Seq<char>)
    ensures
        export_key(source, tree, name) == (match first_member(exported(source, tree), name) {
            Some(m) => Some(m.key_range),
            None => None,
        }),
{
    lemma_entry_gives_member(source, tree.nodes, export_entries(tree.nodes), name);
}

/// The same of what is parsed with a grammar: a key is found if and only if the
/// member is exported, and where its first member says.
pub proof fn law_parsed_members_have_keys(
    language: tree_sitter::Language,
    source: Seq<char>,
    name: Seq<char>,
)
    ensures
        export_key_by(language, source, name) == (match first_member(
            exported_by(language, source),
            name,
        ) {
            Some(m) => Some(m.key_range),
            None => None,
        }),
{
    if let Some(t) = parsed(language, source) {
        law_members_have_keys(source, t, name);
    }
}

proof fn lemma_keys_among(
    source: Seq<char>,
    ns: Seq<NodeView>,
    es: Seq<int>,
    member: Seq<char>,
    i: int,
)
    requires
        0 <= i < es.len(),
        entry_name(source, ns, es[i]) == Some(member),
    ensures
        keys_among(source, ns, es, member).contains(
            range_of(source, ns[entry_key(ns, es[i])->0]),
        ),
    decreases es.len(),
{
    let range = range_of(source, ns[entry_key(ns, es[i])->0]);
    let all = keys_among(source, ns, es, member);
    if i == es.len() - 1 {
        assert(all.last() == range);
    } else {
        lemma_keys_among(source, ns, es.drop_last(), member, i);
        let rest = keys_among(source, ns, es.drop_last(), member);
        let j = choose|j: int| 0 <= j < rest.len() && rest[j] == range;
        assert(all[j] == range);
    }
}

/// Every entry of the export map with the key `member` has its key among those
/// of the member.
pub proof fn law_all_keys_listed(source: Seq<char>, tree: TreeView, member: Seq<char>, i: int)
    requires
        0 <= i < export_entries(tree.nodes).len(),
        entry_name(source, tree.nodes, export_entries(tree.nodes)[i]) == Some(member),
    ensures
        export_keys(source, tree, member).contains(
            range_of(
                source,
                tree.nodes[entry_key(tree.nodes, export_entries(tree.nodes)[i])->0],
            ),
        ),
{
    lemma_keys_among(source, tree.nodes, export_entries(tree.nodes), member, i);
}

proof fn lemma_entry_among(source: Seq<char>, ns: Seq<NodeView>, es: Seq<int>, member: Seq<char>)
    ensures
        entry_among(source, ns, es, member) matches Some(e) ==> es.contains(e) && entry_name(
            source,
            ns,
            e,
        ) == Some(member),
    decreases es.len(),
{
    if es.len() > 0 {
        lemma_entry_among(source, ns, es.drop_first(), member);
        assert(es.contains(es[0]));
        if let Some(e) = entry_among(source, ns, es.drop_first(), member) {
            let rest = es.drop_first();
            if rest.contains(e) {
                let j = choose|j: int| 0 <= j < rest.len() && rest[j] == e;
                assert(es[j + 1] == e);
            }
        }
    }
}

/// A member whose first entry is `name: name` has such an entry, and the key
/// where it is found is one of its keys.
pub proof fn law_first_key_is_a_key(source: Seq<char>, tree: TreeView, name: Seq<char>)
    ensures
        shorthand(source, tree, name) ==> exports_itself(source, tree, name),
        export_key(source, tree, name) matches Some(k) ==> export_keys(source, tree, name).contains(
            k,
        ),
{
    let es = export_entries(tree.nodes);
    lemma_entry_among(source, tree.nodes, es, name);
    if let Some(e) = export_entry(source, tree.nodes, name) {
        let i = choose|i: int| 0 <= i < es.len() && es[i] == e;
        assert(shorthand(source, tree, name) ==> names_itself(source, tree.nodes, es[i], name));
        lemma_keys_among(source, tree.nodes, es, name, i);
    }
}

/// A name that a module exports as `name: name` is the name of a member.
pub proof fn law_shorthand_is_exported(source: Seq<char>, tree: TreeView, name: Seq<char>)
    requires
        shorthand(source, tree, name),
    ensures
        first_member(exported(source, tree), name) is Some,
        export_key(source, tree, name) is Some,
{
    lemma_entry_gives_member(source, tree.nodes, export_entries(tree.nodes), name);
}

/// Finds the map that a module exports.
pub fn find_export_map(tree: &SyntaxTree) -> (r: Option<usize>)
    ensures
        index(r) == export_map(tree@.nodes),
        r matches Some(m) ==> m < tree.nodes@.len(),
{
    if tree.nodes.len() == 0 {
        return None;
    }
    match tree.child_of_kind(0, "export_statement") {
        Some(e) => tree.first_within(e, "map_literal"),
        None => None,
    }
}

/// The entries of the map that a module exports.
pub(crate) fn entries(tree: &SyntaxTree) -> (r: Vec<usize>)
    ensures
        indices(r@) == export_entries(tree@.nodes),
        forall|i: int| 0 <= i < r@.len() ==> #[trigger] r@[i] < tree.nodes@.len(),
{
    match find_export_map(tree) {
        Some(m) => tree.children(m),
        None => {
            let none: Vec<usize> = Vec::new();
            assert(indices(none@) =~= seq![]);
            none
        },
    }
}

/// Whether statement `c` is an assignment with `:=`.
pub(crate) fn is_declaration(tree: &SyntaxTree, c: usize) -> (r: bool)
    requires
        tree.has(c),
    ensures
        r == declares(tree@.nodes, c as int),
{
    match tree.child_by_field_name(c, "operator") {
        Some(o) => tree.is(o, ":="),
        None => false,
    }
}

/// The name that statement `c` binds, and the value.
pub(crate) fn find_binding(tree: &SyntaxTree, c: usize) -> (r: Option<(usize, Option<usize>)>)
    requires
        tree.has(c),
    ensures
        match r {
            Some((n, v)) => binding(tree@.nodes, c as int) == Some((n as int, index(v))) && n
                < tree.nodes@.len() && (v matches Some(x) ==> x < tree.nodes@.len()),
            None => binding(tree@.nodes, c as int) is None,
        },
{
    if tree.is(c, "var_declaration") {
        match tree.child_by_field_name(c, "name") {
            Some(n) => Some((n, tree.child_by_field_name(c, "value"))),
            None => None,
        }
    } else if tree.is(c, "assignment_statement") && is_declaration(tree, c) {
        match tree.child_by_field_name(c, "left") {
            Some(n) => Some((n, tree.child_by_field_name(c, "right"))),
            None => None,
        }
    } else {
        None
    }
}

/// Finds the top-level statement that binds `name` to a function.
fn find_top_level_func_binding(source: &str, tree: &SyntaxTree, name: &str) -> (r: Option<(usize, usize)>)
    requires
        tree.has(0),
    ensures
        match r {
            Some((c, f)) => function_among(
                source@,
                tree@.nodes,
                kids(tree@.nodes, 0),
                name@,
            ) == Some((c as int, f as int)) && c < tree.nodes@.len() && f < tree.nodes@.len(),
            None => function_among(source@, tree@.nodes, kids(tree@.nodes, 0), name@) is None,
        },
{
    let cs = tree.children(0);
    let ghost all = kids(tree@.nodes, 0);
    let mut i: usize = 0;
    assert(all.skip(0) =~= all);
    while i < cs.len()
        invariant
            i <= cs@.len(),
            all == indices(cs@),
            all == kids(tree@.nodes, 0),
            forall|k: int| 0 <= k < cs@.len() ==> #[trigger] cs@[k] < tree.nodes@.len(),
            function_among(source@, tree@.nodes, all, name@) == function_among(
                source@,
                tree@.nodes,
                all.skip(i as int),
                name@,
            ),
        decreases cs@.len() - i,
    {
        let c = cs[i];
        assert(all.skip(i as int)[0] == c);
        assert(all.skip(i as int).drop_first() =~= all.skip(i + 1));
        if let Some((n, Some(v))) = find_binding(tree, c) {
            if tree.is(n, "identifier") && same_str(tree.text_or_empty(source, n), name) && tree.is(
                v,
                "func_literal",
            ) {
                return Some((c, v));
            }
        }
        i += 1;
    }
    None
}

/// Appends the parameters in parameter list `l`.
fn push_params(source: &str, tree: &SyntaxTree, l: usize, out: &mut Vec<Vec<char>>)
    requires
        tree.has(l),
    ensures
        texts(final(out)@) == texts(old(out)@) + params_among(
            source@,
            tree@.nodes,
            kids(tree@.nodes, l as int),
        ),
{
    let ps = tree.children(l);
    let ghost all = kids(tree@.nodes, l as int);
    let mut i: usize = 0;
    assert(all.take(0) =~= seq![]);
    assert(texts(out@) + params_among(source@, tree@.nodes, all.take(0)) =~= texts(out@));
    while i < ps.len()
        invariant
            i <= ps@.len(),
            all == indices(ps@),
            forall|k: int| 0 <= k < ps@.len() ==> #[trigger] ps@[k] < tree.nodes@.len(),
            texts(out@) == texts(old(out)@) + params_among(
                source@,
                tree@.nodes,
                all.take(i as int),
            ),
        decreases ps@.len() - i,
    {
        let p = ps[i];
        assert(all.take(i + 1).drop_last() =~= all.take(i as int));
        assert(all.take(i + 1).last() == p);
        let ghost before = texts(out@);
        if tree.nodes[p].named {
            if tree.is(p, "identifier") {
                let t = chars(tree.text_or_empty(source, p));
                let ghost added = t@;
                out.push(t);
                assert(texts(out@) =~= before.push(added));
            } else if tree.is(p, "variadic_parameter") {
                let mut t = chars("...");
                if let Some(c) = tree.named_child(p) {
                    push_text(&mut t, tree.text_or_empty(source, c));
                } else {
                    assert(t@ =~= "..."@ + Seq::<char>::empty());
                }
                let ghost added = t@;
                out.push(t);
                assert(texts(out@) =~= before.push(added));
            }
        }
        i += 1;
    }
    assert(all.take(all.len() as int) =~= all);
}

/// The parameters of function `f` in brackets.
pub(crate) fn render_signature(source: &str, tree: &SyntaxTree, f: usize) -> (r: String)
    requires
        tree.has(f),
    ensures
        r@ == signature_of(source@, tree@.nodes, f as int),
{
    let cs = tree.children(f);
    let ghost all = kids(tree@.nodes, f as int);
    let mut params: Vec<Vec<char>> = Vec::new();
    let mut i: usize = 0;
    assert(all.take(0) =~= seq![]);
    assert(texts(params@) =~= seq![]);
    while i < cs.len()
        invariant
            i <= cs@.len(),
            all == indices(cs@),
            forall|k: int| 0 <= k < cs@.len() ==> #[trigger] cs@[k] < tree.nodes@.len(),
            texts(params@) == params_of(source@, tree@.nodes, all.take(i as int)),
        decreases cs@.len() - i,
    {
        assert(all.take(i + 1).drop_last() =~= all.take(i as int));
        assert(all.take(i + 1).last() == cs@[i as int]);
        if tree.is(cs[i], "parameter_list") {
            push_params(source, tree, cs[i], &mut params);
        }
        i += 1;
    }
    assert(all.take(all.len() as int) =~= all);
    let mut out = chars("(");
    push_chars(&mut out, &join(&params, ", "));
    push_text(&mut out, ")");
    string(&out)
}

/// Takes `open` and `*/` off the ends of a text.
fn strip_signs<'a>(text: &'a [char], open: &str) -> (r: Option<&'a [char]>)
    ensures
        between(text@, open@) == (match r {
            Some(t) => Some(t@),
            None => None,
        }),
{
    proof {
        reveal_strlit("*/");
    }
    match strip_prefix(text, open) {
        Some(rest) => strip_suffix(rest, "*/"),
        None => None,
    }
}

/// The text of a block comment, without its signs and the stars before its
/// lines.
#[verifier::loop_isolation(false)]
fn parse_block_doc(text: &str) -> (r: Option<String>)
    ensures
        opt_view(r) == block_doc(text@),
{
    let text = chars(text);
    let inner = match strip_signs(&text, "/**") {
        Some(t) => t,
        None => match strip_signs(&text, "/*") {
            Some(t) => t,
            None => match (strip_prefix(&text, "/*"), strip_suffix(&text, "*/")) {
                (None, Some(t)) => t,
                _ => text.as_slice(),
            },
        },
    };
    proof {
        reveal_strlit("*/");
    }
    let cut = lines(inner);
    let ghost all = lines_of(inner@).map_values(|l: Seq<char>| block_line(l));
    let mut out: Vec<Vec<char>> = Vec::new();
    let mut i: usize = 0;
    while i < cut.len()
        invariant
            i <= cut@.len(),
            texts(out@) =~= all.take(i as int),
        decreases cut@.len() - i,
    {
        let line = copy(trim(trim_start(trim(cut[i]), Class::Only('*'))));
        assert(lines_of(inner@)[i as int] == cut@[i as int]@);
        proof {
            lemma_texts_push(out@, line);
        }
        out.push(line);
        i += 1;
    }
    assert(texts(out@) =~= all);
    let out = drop_empty(&out);
    if out.len() == 0 {
        return None;
    }
    Some(string(&join(&out, "\n")))
}

/// Whether node `p` is a comment that ends in the row before `row`.
fn is_comment_above(tree: &SyntaxTree, p: usize, row: usize) -> (r: bool)
    requires
        tree.has(p),
    ensures
        r == comment_above(tree@.nodes, p as int, row),
{
    row > 0 && tree.nodes[p].end.row == row - 1 && tree.is(p, "comment")
}

/// The texts of the line comments right above node `i`, from the last up.
#[verifier::loop_isolation(false)]
fn comments_above(source: &str, tree: &SyntaxTree, i: usize) -> (r: Vec<Vec<char>>)
    requires
        tree.has(i),
    ensures
        texts(r@).reverse() == lines_above(
            source@,
            tree@.nodes,
            i as int,
            tree@.nodes[i as int].start.row,
        ),
{
    let ghost ns = tree@.nodes;
    let ghost all = lines_above(source@, ns, i as int, ns[i as int].start.row);
    let mut back: Vec<Vec<char>> = Vec::new();
    let mut at: usize = i;
    let mut row: usize = tree.nodes[i].start.row;
    assert(all =~= all + texts(back@).reverse());
    loop
        invariant
            at <= i,
            all == lines_above(source@, ns, at as int, row) + texts(back@).reverse(),
        decreases at,
    {
        let ghost above = lines_above(source@, ns, at as int, row);
        let ghost before = texts(back@);
        assert(Seq::<Seq<char>>::empty() + before.reverse() =~= before.reverse());
        let p = match tree.prev_sibling(at) {
            Some(p) => p,
            None => {
                return back;
            },
        };
        let text = chars(tree.text_or_empty(source, p));
        if !is_comment_above(tree, p, row) || strip_prefix(&text, "//").is_none() {
            return back;
        }
        let line = copy(trim_start(trim_start(&text, Class::Only('/')), Class::Space));
        let ghost added = line@;
        back.push(line);
        at = p;
        row = tree.nodes[p].start.row;
        proof {
            assert(texts(back@) =~= before.push(added));
            let rest = lines_above(source@, ns, p as int, row);
            assert(above == rest.push(added));
            assert(rest.push(added) + before.reverse() =~= rest + before.push(added).reverse());
        }
    }
}

/// The run of line comments right above node `i`.
fn extract_line_doc(source: &str, tree: &SyntaxTree, i: usize) -> (r: Option<String>)
    requires
        tree.has(i),
    ensures
        opt_view(r) == doc_of_lines(
            lines_above(source@, tree@.nodes, i as int, tree@.nodes[i as int].start.row),
        ),
{
    let back = comments_above(source, tree, i);
    if back.len() == 0 {
        return None;
    }
    let mut out: Vec<Vec<char>> = Vec::new();
    let mut k: usize = back.len();
    while k > 0
        invariant
            k <= back@.len(),
            texts(out@) =~= texts(back@).reverse().take(back@.len() - k),
        decreases k,
    {
        k -= 1;
        let line = copy(&back[k]);
        assert(line@ == texts(back@).reverse()[back@.len() - 1 - k]);
        proof {
            lemma_texts_push(out@, line);
        }
        out.push(line);
    }
    assert(texts(out@) =~= texts(back@).reverse());
    Some(string(&join(&out, "\n")))
}

/// The doc comment of node `i`: the block comment or the run of line comments
/// right above it.
fn extract_doc(source: &str, tree: &SyntaxTree, i: usize) -> (r: Option<String>)
    requires
        tree.has(i),
    ensures
        opt_view(r) == doc_of(source@, tree@.nodes, i as int),
{
    let p = match tree.prev_sibling(i) {
        Some(p) => p,
        None => {
            return None;
        },
    };
    if !is_comment_above(tree, p, tree.nodes[i].start.row) {
        return None;
    }
    let text = tree.text_or_empty(source, p);
    let cs = chars(text);
    if strip_prefix(&cs, "/*").is_some() {
        return parse_block_doc(text);
    }
    if strip_prefix(&cs, "//").is_some() {
        return extract_line_doc(source, tree, i);
    }
    None
}

/// What the value of an export is, and which node's comments document it.
fn resolve_value(source: &str, tree: &SyntaxTree, value: Option<usize>) -> (r: (
    ItemKind,
    Option<String>,
    Option<usize>,
))
    requires
        value matches Some(v) ==> tree.has(v),
    ensures
        resolved(source@, tree@.nodes, index(value)) == (Resolved {
            kind: r.0,
            signature: opt_view(r.1),
            anchor: index(r.2),
        }),
        r.2 matches Some(a) ==> tree.has(a),
{
    let v = match value {
        Some(v) => v,
        None => {
            return (ItemKind::Variable, None, None);
        },
    };
    if tree.is(v, "func_literal") {
        let signature = render_signature(source, tree, v);
        return (ItemKind::Function, Some(signature), tree.parent(v));
    }
    if tree.is(v, "identifier") {
        let name = tree.text_or_empty(source, v);
        if let Some((c, f)) = find_top_level_func_binding(source, tree, name) {
            let signature = render_signature(source, tree, f);
            return (ItemKind::Function, Some(signature), Some(c));
        }
    }
    (ItemKind::Variable, None, None)
}

/// The key of entry `e` of a map.
pub(crate) fn find_key(tree: &SyntaxTree, e: usize) -> (r: Option<usize>)
    requires
        tree.has(e),
    ensures
        index(r) == entry_key(tree@.nodes, e as int),
        r matches Some(k) ==> k < tree.nodes@.len(),
{
    if tree.is(e, "map_entry") {
        tree.child_by_field_name(e, "key")
    } else {
        None
    }
}

/// Takes the quotes off a key.
pub(crate) fn unquote(text: &str) -> (r: Vec<char>)
    ensures
        r@ == unquoted(text@),
{
    let cs = chars(text);
    copy(trim_of(&cs, Class::Only('"')))
}

/// The member that entry `e` of the export map gives.
fn read_member(source: &str, places: &Places, tree: &SyntaxTree, e: usize) -> (r: Option<
    ExportMember,
>)
    requires
        tree.has(e),
        places.are_of(source@),
    ensures
        match r {
            Some(m) => member_of(source@, tree@.nodes, e as int) == Some(m@),
            None => member_of(source@, tree@.nodes, e as int) is None,
        },
{
    let k = match find_key(tree, e) {
        Some(k) => k,
        None => {
            return None;
        },
    };
    let text = match tree.text(source, k) {
        Some(t) => t,
        None => {
            return None;
        },
    };
    let name = string(&unquote(text));
    let value = tree.child_by_field_name(e, "value");
    let (kind, signature, anchor) = resolve_value(source, tree, value);
    let doc = match anchor {
        Some(a) => extract_doc(source, tree, a),
        None => None,
    };
    let key_range = places.range(&tree.nodes[k], Ghost(source@));
    Some(ExportMember { name, key_range, kind, signature, doc })
}

/// Where a node of the tree of `source` lies.
pub fn node_to_range(source: &str, node: &Node) -> (r: Range)
    ensures
        r == range_of(source@, node@),
{
    node_to_lsp_range(source, node)
}

/// The members that a module exports, given its syntax tree.
pub fn exports_with_tree(source: &str, tree: &SyntaxTree) -> (r: Vec<ExportMember>)
    ensures
        members_view(r@) == exported(source@, tree@),
{
    let es = entries(tree);
    let places = Places::of(source);
    let ghost all = export_entries(tree@.nodes);
    let mut out: Vec<ExportMember> = Vec::new();
    let mut i: usize = 0;
    assert(all.take(0) =~= seq![]);
    assert(members_view(out@) =~= seq![]);
    while i < es.len()
        invariant
            i <= es@.len(),
            all == indices(es@),
            places.are_of(source@),
            forall|k: int| 0 <= k < es@.len() ==> #[trigger] es@[k] < tree.nodes@.len(),
            members_view(out@) == members_of(source@, tree@.nodes, all.take(i as int)),
        decreases es@.len() - i,
    {
        assert(all.take(i + 1).drop_last() =~= all.take(i as int));
        assert(all.take(i + 1).last() == es@[i as int]);
        if let Some(m) = read_member(source, &places, tree, es[i]) {
            let ghost before = members_view(out@);
            let ghost added = m@;
            out.push(m);
            assert(members_view(out@) =~= before.push(added));
        }
        i += 1;
    }
    assert(all.take(all.len() as int) =~= all);
    out
}

/// Parses `source` and gives every member of its top-level `export { ... }`
/// map.
pub fn parse_exports(source: &str, language: &tree_sitter::Language) -> (r: Vec<ExportMember>)
    ensures
        members_view(r@) == exported_by(*language, source@),
{
    match parse(language, source) {
        Some(tree) => exports_with_tree(source, &tree),
        None => {
            let none: Vec<ExportMember> = Vec::new();
            assert(members_view(none@) =~= seq![]);
            none
        },
    }
}

/// The first of the entries `es` with the key `member`.
fn find_entry(source: &str, tree: &SyntaxTree, es: &Vec<usize>, member: &str) -> (r: Option<usize>)
    requires
        forall|k: int| 0 <= k < es@.len() ==> #[trigger] es@[k] < tree.nodes@.len(),
    ensures
        index(r) == entry_among(source@, tree@.nodes, indices(es@), member@),
        r matches Some(e) ==> tree.has(e) && entry_key(tree@.nodes, e as int) is Some,
{
    let want = chars(member);
    let ghost all = indices(es@);
    let mut i: usize = 0;
    assert(all.skip(0) =~= all);
    while i < es.len()
        invariant
            i <= es@.len(),
            all == indices(es@),
            want@ == member@,
            forall|k: int| 0 <= k < es@.len() ==> #[trigger] es@[k] < tree.nodes@.len(),
            entry_among(source@, tree@.nodes, all.skip(i as int), member@) == entry_among(
                source@,
                tree@.nodes,
                all,
                member@,
            ),
        decreases es@.len() - i,
    {
        assert(all.skip(i as int)[0] == es@[i as int]);
        assert(all.skip(i as int).drop_first() =~= all.skip(i + 1));
        if let Some(k) = find_key(tree, es[i]) {
            if let Some(text) = tree.text(source, k) {
                if same(&unquote(text), &want) {
                    return Some(es[i]);
                }
            }
        }
        i += 1;
    }
    None
}

/// Where a module exports `member`, given its syntax tree.
pub fn export_member_range_with_tree(source: &str, tree: &SyntaxTree, member: &str) -> (r: Option<Range>)
    ensures
        r == export_key(source@, tree@, member@),
{
    let e = match find_entry(source, tree, &entries(tree), member) {
        Some(e) => e,
        None => {
            return None;
        },
    };
    match find_key(tree, e) {
        Some(k) => Some(node_to_range(source, &tree.nodes[k])),
        None => None,
    }
}

/// Parses `source` and gives the place of the key `member` in its export map.
pub fn find_export_member_range(
    source: &str,
    member: &str,
    language: &tree_sitter::Language,
) -> (r: Option<Range>)
    ensures
        r == export_key_by(*language, source@, member@),
{
    match parse(language, source) {
        Some(tree) => export_member_range_with_tree(source, &tree, member),
        None => None,
    }
}

/// Whether the value of entry `e` is the identifier `member`.
fn is_entry_value(source: &str, tree: &SyntaxTree, e: usize, member: &str) -> (r: bool)
    requires
        tree.has(e),
    ensures
        r == entry_value_is(source@, tree@.nodes, e as int, member@),
{
    match tree.child_by_field_name(e, "value") {
        Some(v) => tree.is(v, "identifier") && same_str(tree.text_or_empty(source, v), member),
        None => false,
    }
}

/// Whether the key of entry `e` is `name`.
fn is_entry_name(source: &str, tree: &SyntaxTree, e: usize, name: &str) -> (r: bool)
    requires
        tree.has(e),
    ensures
        r == (entry_name(source@, tree@.nodes, e as int) == Some(name@)),
{
    match find_key(tree, e) {
        Some(k) => match tree.text(source, k) {
            Some(text) => same(&unquote(text), &chars(name)),
            None => false,
        },
        None => false,
    }
}

/// Whether `e` is among `es`.
fn has_entry(es: &Vec<usize>, e: usize) -> (r: bool)
    ensures
        r == indices(es@).contains(e as int),
{
    let ghost all = indices(es@);
    let mut i: usize = 0;
    while i < es.len()
        invariant
            i <= es@.len(),
            all == indices(es@),
            forall|k: int| 0 <= k < i ==> #[trigger] all[k] != e,
        decreases es@.len() - i,
    {
        if es[i] == e {
            assert(all[i as int] == e);
            return true;
        }
        i += 1;
    }
    false
}

/// Whether node `i` is the key of an export `name: name`, where `es` are the
/// entries of the map that the module exports.
pub(crate) fn is_shorthand_key(source: &str, tree: &SyntaxTree, es: &Vec<usize>, i: usize) -> (r: bool)
    requires
        tree.has(i),
        indices(es@) == export_entries(tree@.nodes),
    ensures
        r == shorthand_key(source@, tree@.nodes, i as int),
{
    let name = tree.text_or_empty(source, i);
    match tree.parent(i) {
        Some(e) => has_entry(es, e) && find_key(tree, e) == Some(i) && is_entry_name(
            source,
            tree,
            e,
            name,
        ) && is_entry_value(source, tree, e, name),
        None => false,
    }
}

/// Whether a module exports `name` under some entry `name: name`.
pub fn exports_itself_with_tree(source: &str, tree: &SyntaxTree, name: &str) -> (r: bool)
    ensures
        r == exports_itself(source@, tree@, name@),
{
    let es = entries(tree);
    let ghost all = export_entries(tree@.nodes);
    let mut i: usize = 0;
    while i < es.len()
        invariant
            i <= es@.len(),
            all == indices(es@),
            all == export_entries(tree@.nodes),
            forall|k: int| 0 <= k < es@.len() ==> #[trigger] es@[k] < tree.nodes@.len(),
            forall|k: int|
                0 <= k < i ==> !names_itself(source@, tree@.nodes, #[trigger] all[k], name@),
        decreases es@.len() - i,
    {
        assert(all[i as int] == es@[i as int]);
        if is_entry_name(source, tree, es[i], name) && is_entry_value(source, tree, es[i], name) {
            assert(names_itself(source@, tree@.nodes, all[i as int], name@));
            return true;
        }
        i += 1;
    }
    false
}

/// The places of all keys under which a module exports `member`, given its
/// syntax tree.
pub fn export_key_ranges_with_tree(source: &str, tree: &SyntaxTree, member: &str) -> (r: Vec<Range>)
    ensures
        r@ == export_keys(source@, tree@, member@),
{
    let es = entries(tree);
    let places = Places::of(source);
    let ghost all = export_entries(tree@.nodes);
    let mut out: Vec<Range> = Vec::new();
    let mut i: usize = 0;
    assert(out@ =~= keys_among(source@, tree@.nodes, all.take(0), member@));
    while i < es.len()
        invariant
            i <= es@.len(),
            all == indices(es@),
            places.are_of(source@),
            forall|k: int| 0 <= k < es@.len() ==> #[trigger] es@[k] < tree.nodes@.len(),
            out@ == keys_among(source@, tree@.nodes, all.take(i as int), member@),
        decreases es@.len() - i,
    {
        assert(all.take(i + 1).drop_last() =~= all.take(i as int));
        assert(all.take(i + 1).last() == es@[i as int]);
        if is_entry_name(source, tree, es[i], member) {
            if let Some(k) = find_key(tree, es[i]) {
                out.push(places.range(&tree.nodes[k], Ghost(source@)));
            }
        }
        i += 1;
    }
    assert(all.take(all.len() as int) =~= all);
    out
}

/// Whether a module exports `member` as `member: member`, given its syntax
/// tree. Only such a member stands for the top-level definition of its name.
pub fn shorthand_with_tree(source: &str, tree: &SyntaxTree, member: &str) -> (r: bool)
    ensures
        r == shorthand(source@, tree@, member@),
{
    match find_entry(source, tree, &entries(tree), member) {
        Some(e) => is_entry_value(source, tree, e, member),
        None => false,
    }
}

/// Parses `source` and tells whether it exports `member` as `member: member`.
pub fn export_member_is_shorthand(
    source: &str,
    member: &str,
    language: &tree_sitter::Language,
) -> (r: bool)
    ensures
        r == (match parsed(*language, source@) {
            Some(t) => shorthand(source@, t, member@),
            None => false,
        }),
{
    match parse(language, source) {
        Some(tree) => shorthand_with_tree(source, &tree, member),
        None => false,
    }
}

} // verus!
