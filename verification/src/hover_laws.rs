//! What is shown of a member, said of the comment above it.

use vstd::prelude::*;
use vstd::string::*;

use crate::definition_laws::at;
use crate::definition_laws::selected;
use crate::document::FileView;
use crate::exports::doc_of;
use crate::exports::export_entries;
use crate::exports::exported;
use crate::exports::lemma_entry_gives_member;
use crate::exports::signature_of;
use crate::exports::unquoted;
use crate::exports::ExportView;
use crate::exports::ItemKind;
use crate::exports_laws::keyed;
use crate::exports_laws::keyed_before;
use crate::exports_laws::law_inline_function;
use crate::exports_laws::lemma_first_entry;
use crate::exports_laws::lemma_member_at;
use crate::exports_laws::lemma_no_entry;
use crate::hover::after_tag;
use crate::hover::and_if;
use crate::hover::braced;
use crate::hover::doc_text;
use crate::hover::has_tag;
use crate::hover::hovered;
use crate::hover::is_other;
use crate::hover::is_param;
use crate::hover::is_return;
use crate::hover::law_one_item_per_tag;
use crate::hover::lemma_has_tag;
use crate::hover::member_at;
use crate::hover::other_line;
use crate::hover::param_line;
use crate::hover::param_tags;
use crate::hover::return_line;
use crate::hover::return_tags;
use crate::hover::sorted;
use crate::hover::sorted_in;
use crate::hover::Section;
use crate::hover::Sorted;
use crate::lsp::Position;
use crate::places::point_of;
use crate::references::selected_module;
use crate::resolver::path_of_uri;
use crate::symbols::import_named;
use crate::syntax::field_child;
use crate::syntax::parent_of;
use crate::syntax::smallest_at;
use crate::syntax::text_of;
use crate::text::first_of;
use crate::text::is_space;
use crate::text::joined;
use crate::text::lines_of;
use crate::text::position_of;
use crate::text::trimmed;
use crate::text::trimmed_of;
use crate::text::trimmed_start;
use crate::text::Class;
use crate::text_facts::law_trimmed;
use crate::text_facts::lemma_first_of;
use crate::text_facts::lemma_one_piece;
use crate::text_facts::lemma_position_is;
use crate::text_facts::lemma_position_of;
use crate::text_facts::lemma_trimmed_start_of;
use crate::text_facts::stands_at;

verus! {

/// What is shown of a member: its name, with the signature of a function, as
/// code, and behind a blank line what its comment says.
pub open spec fn shown(m: ExportView) -> Seq<char> {
    "```tengo\n"@ + m.name + (match m.signature {
        Some(s) => if m.kind == ItemKind::Function {
            s
        } else {
            seq![]
        },
        None => seq![],
    }) + "\n```"@ + (match m.doc {
        Some(d) => "\n\n"@ + doc_text(d),
        None => seq![],
    })
}

/// On `alias.name` the member is shown that the first entry `name` of the
/// module's export map gives.
pub proof fn law_hover_shows_the_member(
    f: FileView,
    position: Position,
    i: int,
    p: int,
    alias: Seq<char>,
    name: Seq<char>,
    m: FileView,
    e: int,
    k: int,
    text: Seq<char>,
)
    requires
        at(f, position, i, p),
        selected(f, i, p, alias),
        text_of(f.source, f.tree.nodes[i]) == Some(name),
        import_named(f.imports, alias) is Some,
        path_of_uri(f.uri) is Some,
        0 <= e < export_entries(m.tree.nodes).len(),
        keyed(m.source, m.tree.nodes, export_entries(m.tree.nodes)[e], k, text),
        unquoted(text) == name,
        forall|h: int, k: int, text: Seq<char>|
            0 <= h < e && #[trigger] keyed(
                m.source,
                m.tree.nodes,
                export_entries(m.tree.nodes)[h],
                k,
                text,
            ) ==> unquoted(text) != name,
    ensures
        ({
            let n = keyed_before(m.source, m.tree.nodes, export_entries(m.tree.nodes), e) as int;
            hovered(f, position, Some(m)) == Some(shown(exported(m.source, m.tree)[n]))
        }),
{
    let es = export_entries(m.tree.nodes);
    lemma_first_entry(m.source, m.tree.nodes, es, name, e, k, text);
    lemma_entry_gives_member(m.source, m.tree.nodes, es, name);
    lemma_member_at(m.source, m.tree, e);
    let n = keyed_before(m.source, m.tree.nodes, es, e) as int;
    let x = exported(m.source, m.tree)[n];
    assert(hovered(f, position, Some(m))->0 =~= shown(x));
}

/// A function that is written in the export map itself is shown with its
/// parameters and with the comment right above its entry.
pub proof fn law_hover_shows_the_comment(
    f: FileView,
    position: Position,
    i: int,
    p: int,
    alias: Seq<char>,
    name: Seq<char>,
    m: FileView,
    e: int,
    k: int,
    text: Seq<char>,
    v: int,
)
    requires
        at(f, position, i, p),
        selected(f, i, p, alias),
        text_of(f.source, f.tree.nodes[i]) == Some(name),
        import_named(f.imports, alias) is Some,
        path_of_uri(f.uri) is Some,
        0 <= e < export_entries(m.tree.nodes).len(),
        keyed(m.source, m.tree.nodes, export_entries(m.tree.nodes)[e], k, text),
        unquoted(text) == name,
        forall|h: int, k: int, text: Seq<char>|
            0 <= h < e && #[trigger] keyed(
                m.source,
                m.tree.nodes,
                export_entries(m.tree.nodes)[h],
                k,
                text,
            ) ==> unquoted(text) != name,
        field_child(m.tree.nodes, export_entries(m.tree.nodes)[e], "value"@) == Some(v),
        m.tree.nodes[v].kind == "func_literal"@,
    ensures
        hovered(f, position, Some(m)) == Some(
            "```tengo\n"@ + name + signature_of(m.source, m.tree.nodes, v) + "\n```"@ + (
            match doc_of(m.source, m.tree.nodes, export_entries(m.tree.nodes)[e]) {
                Some(d) => "\n\n"@ + doc_text(d),
                None => seq![],
            }),
        ),
{
    law_hover_shows_the_member(f, position, i, p, alias, name, m, e, k, text);
    law_inline_function(m.source, m.tree, e, k, text, v);
}

/// Nothing is shown of a member that the module does not export, or whose
/// module was not found.
pub proof fn law_unknown_member_shows_nothing(
    f: FileView,
    position: Position,
    i: int,
    p: int,
    alias: Seq<char>,
    name: Seq<char>,
    m: FileView,
)
    requires
        at(f, position, i, p),
        selected(f, i, p, alias),
        text_of(f.source, f.tree.nodes[i]) == Some(name),
        forall|h: int, k: int, text: Seq<char>|
            0 <= h < export_entries(m.tree.nodes).len() && #[trigger] keyed(
                m.source,
                m.tree.nodes,
                export_entries(m.tree.nodes)[h],
                k,
                text,
            ) ==> unquoted(text) != name,
    ensures
        hovered(f, position, Some(m)) is None,
        hovered(f, position, None) is None,
{
    let es = export_entries(m.tree.nodes);
    lemma_no_entry(m.source, m.tree.nodes, es, name);
    lemma_entry_gives_member(m.source, m.tree.nodes, es, name);
}

/// Nothing is shown of anything but a member of an imported module.
pub proof fn law_only_members_are_shown(f: FileView, position: Position, module: Option<FileView>)
    requires
        forall|i: int, p: int, alias: Seq<char>| #[trigger]
            at(f, position, i, p) && #[trigger] selected(f, i, p, alias) ==> import_named(
                f.imports,
                alias,
            ) is None,
    ensures
        hovered(f, position, module) is None,
{
    if let Some(i) = smallest_at(f.tree.nodes, point_of(f.source, position)) {
        if selected_module(f, i) is Some && f.tree.nodes[i].kind == "identifier"@ {
            let p = parent_of(f.tree.nodes, i)->0;
            let o = field_child(f.tree.nodes, p, "object"@)->0;
            let alias = text_of(f.source, f.tree.nodes[o])->0;
            assert(at(f, position, i, p) && selected(f, i, p, alias));
        }
    }
}

/// Whether `s` has no white space at its ends and stands in one line.
pub open spec fn neat(s: Seq<char>) -> bool {
    s.len() > 0 && !is_space(s[0]) && !is_space(s.last()) && !s.contains('\n')
}

/// Whether `s` is a word: no white space and no colon.
pub open spec fn word(s: Seq<char>) -> bool {
    s.len() > 0 && forall|i: int|
        0 <= i < s.len() ==> !is_space(#[trigger] s[i]) && s[i] != ':' && s[i] != '\n'
}

proof fn lemma_neat(s: Seq<char>)
    requires
        s.len() > 0 ==> !is_space(s[0]) && !is_space(s.last()),
    ensures
        trimmed(s) == s,
        trimmed(" "@ + s) == s,
        trimmed_start(" "@ + s, Class::Space) == s,
        trimmed_start(s, Class::Space) == s,
{
    reveal_strlit(" ");
    lemma_trimmed_start_of(" "@, s, Class::Space);
}

proof fn lemma_one_line(line: Seq<char>)
    requires
        neat(line),
    ensures
        lines_of(line) == seq![line],
        sorted(lines_of(line)) == sorted_in(
            (Sorted {
                lead: seq![],
                params: seq![],
                returns: seq![],
                other: seq![],
                at: Section::Lead,
            }),
            line,
        ),
{
    lemma_one_piece(line, '\n');
    assert(seq![line].last() == line);
    assert(seq![line].drop_last() =~= seq![]);
    reveal_with_fuel(sorted, 2);
}

proof fn lemma_tagged(tag: Seq<char>, body: Seq<char>)
    requires
        tag.len() > 0,
        tag[0] == '@',
        !tag.contains('\n'),
        neat(body),
    ensures
        neat(tag + " "@ + body),
        trimmed(tag + " "@ + body) == tag + " "@ + body,
        (tag + " "@ + body).skip(tag.len() as int) == " "@ + body,
        tag.is_prefix_of(tag + " "@ + body),
{
    reveal_strlit(" ");
    let line = tag + " "@ + body;
    assert(line.last() == body.last());
    assert(line[0] == '@');
    assert(!line.contains('\n')) by {
        if line.contains('\n') {
            let j = choose|j: int| 0 <= j < line.len() && line[j] == '\n';
            if j < tag.len() {
                assert(tag[j] == '\n');
            } else if j > tag.len() {
                assert(body[j - tag.len() - 1] == '\n');
            }
        }
    }
    lemma_neat(line);
    assert(line.skip(tag.len() as int) =~= " "@ + body);
    assert(line.take(tag.len() as int) =~= tag);
}

/// Each of the three tags for parameters gives a parameter's line.
pub proof fn law_param_tags(tag: Seq<char>, body: Seq<char>)
    requires
        tag == "@param"@ || tag == "@arg"@ || tag == "@argument"@,
        neat(body),
    ensures
        doc_text(tag + " "@ + body) == "**Parameters**\n\n"@ + param_line(body),
{
    reveal_strlit("@param");
    reveal_strlit("@arg");
    reveal_strlit("@argument");
    reveal_strlit(" ");
    let line = tag + " "@ + body;
    lemma_tagged(tag, body);
    lemma_one_line(line);
    lemma_neat(body);
    assert(after_tag(line, param_tags()) == Some(body)) by {
        let tags = param_tags();
        reveal_with_fuel(after_tag, 4);
        assert(tags.drop_first() =~= seq!["@arg"@, "@argument"@]);
        assert(tags.drop_first().drop_first() =~= seq!["@argument"@]);
        if tag != "@param"@ {
            assert(line[1] == 'a');
            assert(!"@param"@.is_prefix_of(line));
        }
        if tag == "@argument"@ {
            assert(line.skip(4)[0] == 'u');
            assert(!is_space('u'));
        }
    }
    let d = sorted(lines_of(line));
    assert(d.params =~= seq![param_line(body)]);
    lemma_sections(line);
    assert(Seq::<Seq<char>>::empty().push("**Parameters**\n\n"@ + param_line(body))[0]
        == "**Parameters**\n\n"@ + param_line(body));
}

proof fn lemma_sections(doc: Seq<char>)
    ensures
        sorted(lines_of(doc)).lead.len() == 0 ==> trimmed(
            joined(sorted(lines_of(doc)).lead, "\n"@),
        ).len() == 0,
{
}

/// Each of the two tags for return values gives a return value's line.
pub proof fn law_return_tags(tag: Seq<char>, body: Seq<char>)
    requires
        tag == "@return"@ || tag == "@returns"@,
        neat(body),
    ensures
        doc_text(tag + " "@ + body) == "**Returns**\n\n"@ + return_line(body),
{
    reveal_strlit("@param");
    reveal_strlit("@arg");
    reveal_strlit("@argument");
    reveal_strlit("@return");
    reveal_strlit("@returns");
    reveal_strlit(" ");
    let line = tag + " "@ + body;
    lemma_tagged(tag, body);
    lemma_one_line(line);
    lemma_neat(body);
    assert(line[1] == 'r');
    lemma_no_tag(line);
    assert(after_tag(line, return_tags()) == Some(body)) by {
        let tags = return_tags();
        reveal_with_fuel(after_tag, 3);
        assert(tags.drop_first() =~= seq!["@returns"@]);
        if tag == "@returns"@ {
            assert(line.skip(7)[0] == 's');
            assert(!is_space('s'));
        }
    }
    let d = sorted(lines_of(line));
    assert(d.returns =~= seq![return_line(body)]);
    lemma_sections(line);
    assert(Seq::<Seq<char>>::empty().push("**Returns**\n\n"@ + return_line(body))[0]
        == "**Returns**\n\n"@ + return_line(body));
}

proof fn lemma_no_tag(line: Seq<char>)
    requires
        line.len() > 1,
        line[1] != 'p',
        line[1] != 'a',
    ensures
        after_tag(line, param_tags()) is None,
{
    reveal_strlit("@param");
    reveal_strlit("@arg");
    reveal_strlit("@argument");
    let tags = param_tags();
    reveal_with_fuel(after_tag, 4);
    assert(tags.drop_first() =~= seq!["@arg"@, "@argument"@]);
    assert(tags.drop_first().drop_first() =~= seq!["@argument"@]);
    assert(tags.drop_first().drop_first().drop_first() =~= seq![]);
    if "@param"@.is_prefix_of(line) {
        assert(line[1] == "@param"@[1]);
    }
    if "@arg"@.is_prefix_of(line) {
        assert(line[1] == "@arg"@[1]);
    }
    if "@argument"@.is_prefix_of(line) {
        assert(line[1] == "@argument"@[1]);
    }
}

/// The name of a parameter alone gives the name as code.
pub proof fn law_param_name(name: Seq<char>)
    requires
        word(name),
        name[0] != '{',
    ensures
        param_line(name) == "`"@ + name + "`"@,
{
    lemma_first_of(name, Class::ColonOrSpace, name.len() as int);
    assert(name.take(name.len() as int) =~= name);
    assert(name.skip(name.len() as int) =~= seq![]);
    reveal_strlit(" - ");
}

proof fn lemma_word_then(name: Seq<char>, rest: Seq<char>)
    requires
        word(name),
        rest.len() > 0,
        is_space(rest[0]) || rest[0] == ':',
    ensures
        first_of(name + rest, Class::ColonOrSpace) == name.len(),
        (name + rest).take(name.len() as int) == name,
        (name + rest).skip(name.len() as int) == rest,
{
    let s = name + rest;
    assert forall|i: int| 0 <= i < name.len() implies !Class::ColonOrSpace.has(
        #[trigger] s[i],
    ) by {
        assert(s[i] == name[i]);
    }
    assert(s[name.len() as int] == rest[0]);
    lemma_first_of(s, Class::ColonOrSpace, name.len() as int);
    assert(s.take(name.len() as int) =~= name);
    assert(s.skip(name.len() as int) =~= rest);
}

/// What follows the name of a parameter behind a dash describes it.
pub proof fn law_param_dash(name: Seq<char>, desc: Seq<char>)
    requires
        word(name),
        name[0] != '{',
        neat(desc),
    ensures
        param_line(name + " - "@ + desc) == "`"@ + name + "`"@ + " — "@ + desc,
{
    reveal_strlit(" - ");
    reveal_strlit(" ");
    let rest = " - "@ + desc;
    assert(name + " - "@ + desc =~= name + rest);
    lemma_word_then(name, rest);
    let after = rest.skip(1);
    assert(rest =~= " "@ + after);
    lemma_trimmed_start_of(" "@, after, Class::Space);
    assert(after[0] == '-');
    assert(trimmed_start(after, Class::Space) == after);
    assert(after.skip(1) =~= " "@ + desc);
    lemma_neat(desc);
}

/// What follows the name of a parameter otherwise describes it too.
pub proof fn law_param_text(name: Seq<char>, desc: Seq<char>)
    requires
        word(name),
        name[0] != '{',
        neat(desc),
        desc[0] != '-' && desc[0] != ':',
        forall|k: int| !(#[trigger] stands_at(desc, " - "@, k)),
    ensures
        param_line(name + " "@ + desc) == "`"@ + name + "`"@ + " — "@ + desc,
{
    reveal_strlit(" ");
    let rest = " "@ + desc;
    assert(name + " "@ + desc =~= name + rest);
    lemma_word_then(name, rest);
    lemma_neat(desc);
    lemma_position_of(desc, " - "@);
}

/// Between a colon and a dash stands the type of a parameter.
pub proof fn law_param_type(name: Seq<char>, ty: Seq<char>, desc: Seq<char>)
    requires
        word(name),
        name[0] != '{',
        neat(ty),
        !ty.contains('-'),
        neat(desc),
    ensures
        param_line(name + ": "@ + ty + " - "@ + desc) == "`"@ + name + "`"@ + " *("@ + ty + ")*"@
            + " — "@ + desc,
{
    reveal_strlit(": ");
    reveal_strlit(" - ");
    reveal_strlit(" ");
    let after = ty + " - "@ + desc;
    let rest = ": "@ + after;
    assert(name + ": "@ + ty + " - "@ + desc =~= name + rest);
    lemma_word_then(name, rest);
    assert(!is_space(':'));
    assert(trimmed_start(rest, Class::Space) == rest);
    assert(rest.skip(1) =~= " "@ + after);
    lemma_trimmed_start_of(" "@, after, Class::Space);
    assert(after[0] == ty[0]);
    assert(trimmed_start(after, Class::Space) == after);
    lemma_dash(ty, desc);
    assert(after.take(ty.len() as int) =~= ty);
    assert(after.skip(ty.len() as int + 3) =~= desc);
    lemma_neat(ty);
    lemma_neat(desc);
}

proof fn lemma_dash(ty: Seq<char>, desc: Seq<char>)
    requires
        !ty.contains('-'),
    ensures
        position_of(ty + " - "@ + desc, " - "@) == Some(ty.len() as int),
{
    lemma_dash_places(ty, desc);
    lemma_position_is(ty + " - "@ + desc, " - "@, ty.len() as int);
}

proof fn lemma_dash_places(ty: Seq<char>, desc: Seq<char>)
    requires
        !ty.contains('-'),
    ensures
        stands_at(ty + " - "@ + desc, " - "@, ty.len() as int),
        forall|k: int| #[trigger] stands_at(ty + " - "@ + desc, " - "@, k) ==> k >= ty.len(),
{
    reveal_strlit(" - ");
    let s = ty + " - "@ + desc;
    let dash = " - "@;
    assert(dash.len() == 3 && dash[1] == '-');
    assert(s.subrange(ty.len() as int, ty.len() as int + 3) =~= dash);
    assert forall|k: int| #[trigger] stands_at(s, dash, k) implies k >= ty.len() by {
        assert(s.subrange(k, k + 3)[1] == s[k + 1]);
        if k + 1 < ty.len() {
            assert(ty[k + 1] == '-');
        } else if k + 1 == ty.len() {
            assert(s[k + 1] == ' ');
        }
    }
}

/// A type in braces before the name of a parameter is its type, whatever it
/// holds but a closing brace.
pub proof fn law_param_braces(ty: Seq<char>, name: Seq<char>, desc: Seq<char>)
    requires
        neat(ty),
        !ty.contains('}'),
        word(name),
        neat(desc),
        desc[0] != '-' && desc[0] != ':',
        forall|k: int| !(#[trigger] stands_at(desc, " - "@, k)),
    ensures
        param_line("{"@ + ty + "} "@ + name + " "@ + desc) == "`"@ + name + "`"@ + " *("@ + ty
            + ")*"@ + " — "@ + desc,
{
    reveal_strlit(" ");
    let body = name + " "@ + desc;
    assert("{"@ + ty + "} "@ + name + " "@ + desc =~= "{"@ + ty + "} "@ + body);
    assert(body.last() == desc.last());
    assert(body[0] == name[0]);
    lemma_braced(ty, body);
    let rest = " "@ + desc;
    assert(body =~= name + rest);
    lemma_word_then(name, rest);
    lemma_neat(desc);
    lemma_position_of(desc, " - "@);
}

proof fn lemma_braced(ty: Seq<char>, body: Seq<char>)
    requires
        neat(ty),
        !ty.contains('}'),
        body.len() > 0,
        !is_space(body[0]),
        !is_space(body.last()),
    ensures
        braced("{"@ + ty + "} "@ + body) == (Some(ty), body),
{
    reveal_strlit("{");
    reveal_strlit("} ");
    reveal_strlit(" ");
    let all = "{"@ + ty + "} "@ + body;
    let inner = all.skip(1);
    assert(inner =~= ty + "} "@ + body);
    assert forall|i: int| 0 <= i < ty.len() implies !Class::Only('}').has(#[trigger] inner[i]) by {
        assert(inner[i] == ty[i]);
        assert(ty.contains(ty[i]));
    }
    assert(inner[ty.len() as int] == '}');
    lemma_first_of(inner, Class::Only('}'), ty.len() as int);
    assert(inner.take(ty.len() as int) =~= ty);
    assert(inner.skip(ty.len() as int + 1) =~= " "@ + body);
    lemma_neat(ty);
    lemma_neat(body);
}

/// The text of a return value that names none stays as it is.
pub proof fn law_return_text(text: Seq<char>)
    requires
        neat(text),
        text[0] != '{',
        !text.contains(':'),
        forall|k: int| !(#[trigger] stands_at(text, " - "@, k)),
    ensures
        return_line(text) == text,
{
    lemma_position_of(text, " - "@);
    assert forall|i: int| 0 <= i < text.len() implies !Class::Only(':').has(#[trigger] text[i]) by {
        assert(text.contains(text[i]));
    }
    lemma_first_of(text, Class::Only(':'), text.len() as int);
}

/// A name before a dash is that of the return value.
pub proof fn law_return_dash(name: Seq<char>, desc: Seq<char>)
    requires
        neat(name),
        name[0] != '{',
        !name.contains('-'),
        neat(desc),
    ensures
        return_line(name + " - "@ + desc) == "`"@ + name + "`"@ + " — "@ + desc,
{
    reveal_strlit(" - ");
    reveal_strlit("`");
    reveal_strlit(" — ");
    reveal_strlit("` — ");
    let body = name + " - "@ + desc;
    assert(body[0] == name[0]);
    lemma_dash(name, desc);
    assert(body.take(name.len() as int) =~= name);
    assert(body.skip(name.len() as int + 3) =~= desc);
    lemma_neat(name);
    lemma_neat(desc);
    assert("`"@ + name + "` — "@ + desc =~= "`"@ + name + "`"@ + " — "@ + desc);
}

/// So is a single word before a colon.
pub proof fn law_return_colon(name: Seq<char>, desc: Seq<char>)
    requires
        word(name),
        name[0] != '{',
        neat(desc),
        forall|k: int| !(#[trigger] stands_at(name + ": "@ + desc, " - "@, k)),
    ensures
        return_line(name + ": "@ + desc) == "`"@ + name + "`"@ + " — "@ + desc,
{
    reveal_strlit(": ");
    reveal_strlit(" ");
    reveal_strlit("`");
    reveal_strlit(" — ");
    reveal_strlit("` — ");
    let body = name + ": "@ + desc;
    assert(body[0] == name[0]);
    lemma_position_of(body, " - "@);
    assert forall|i: int| 0 <= i < name.len() implies !Class::Only(':').has(#[trigger] body[i]) by {
        assert(body[i] == name[i]);
    }
    assert(body[name.len() as int] == ':');
    lemma_first_of(body, Class::Only(':'), name.len() as int);
    assert(body.take(name.len() as int) =~= name);
    assert(body.skip(name.len() as int + 1) =~= " "@ + desc);
    lemma_neat(desc);
    assert(!is_space(name[0]) && !is_space(name[name.len() - 1]));
    lemma_neat(name);
    lemma_first_of(name, Class::Space, name.len() as int);
    assert("`"@ + name + "` — "@ + desc =~= "`"@ + name + "`"@ + " — "@ + desc);
}

/// A type in braces stands before what is said of the return value.
pub proof fn law_return_braces(ty: Seq<char>, text: Seq<char>)
    requires
        neat(ty),
        !ty.contains('}'),
        neat(text),
        text[0] != '{',
    ensures
        return_line("{"@ + ty + "} "@ + text) == "*("@ + ty + ")* "@ + return_line(text),
{
    lemma_braced(ty, text);
}

/// Any other tag gives its name in bold and then what follows it.
pub proof fn law_other_tags(tag: Seq<char>, body: Seq<char>)
    requires
        tag.len() > 0,
        forall|i: int| 0 <= i < tag.len() ==> !is_space(#[trigger] tag[i]),
        tag != "param"@ && tag != "arg"@ && tag != "argument"@ && tag != "return"@ && tag
            != "returns"@,
        neat(body),
    ensures
        doc_text("@"@ + tag + " "@ + body) == "**"@ + tag + "** "@ + body,
{
    reveal_strlit("@");
    reveal_strlit(" ");
    reveal_strlit("**");
    reveal_strlit("** ");
    let whole = "@"@ + tag;
    assert(!whole.contains('\n')) by {
        if whole.contains('\n') {
            let j = choose|j: int| 0 <= j < whole.len() && whole[j] == '\n';
            assert(is_space('\n'));
            assert(!is_space(tag[j - 1]));
        }
    }
    lemma_tagged(whole, body);
    let line = whole + " "@ + body;
    lemma_one_line(line);
    reveal_strlit("param");
    reveal_strlit("arg");
    reveal_strlit("argument");
    reveal_strlit("return");
    reveal_strlit("returns");
    reveal_strlit("@param");
    reveal_strlit("@arg");
    reveal_strlit("@argument");
    reveal_strlit("@return");
    reveal_strlit("@returns");
    assert("@param"@ =~= "@"@ + "param"@);
    assert("@arg"@ =~= "@"@ + "arg"@);
    assert("@argument"@ =~= "@"@ + "argument"@);
    assert("@return"@ =~= "@"@ + "return"@);
    assert("@returns"@ =~= "@"@ + "returns"@);
    let ps = param_tags();
    let rs = return_tags();
    assert(ps.len() == 3 && ps[0] == "@param"@ && ps[1] == "@arg"@ && ps[2] == "@argument"@);
    assert(rs.len() == 2 && rs[0] == "@return"@ && rs[1] == "@returns"@);
    assert forall|i: int| 0 <= i < ps.len() implies exists|w: Seq<char>|
        #[trigger] ps[i] == "@"@ + w && w != tag && plain(w) by {
        assert(i == 0 || i == 1 || i == 2);
        let w = if i == 0 {
            "param"@
        } else if i == 1 {
            "arg"@
        } else {
            "argument"@
        };
        assert(ps[i] == "@"@ + w && w != tag && plain(w));
    }
    assert forall|i: int| 0 <= i < rs.len() implies exists|w: Seq<char>|
        #[trigger] rs[i] == "@"@ + w && w != tag && plain(w) by {
        assert(i == 0 || i == 1);
        let w = if i == 0 {
            "return"@
        } else {
            "returns"@
        };
        assert(rs[i] == "@"@ + w && w != tag && plain(w));
    }
    lemma_other_tag(tag, body, ps);
    lemma_other_tag(tag, body, rs);
    let rest = line.skip(1);
    assert(rest =~= tag + " "@ + body);
    assert forall|i: int| 0 <= i < tag.len() implies !Class::Space.has(#[trigger] rest[i]) by {
        assert(rest[i] == tag[i]);
    }
    assert(rest[tag.len() as int] == ' ');
    lemma_first_of(rest, Class::Space, tag.len() as int);
    assert(rest.take(tag.len() as int) =~= tag);
    assert(rest.skip(tag.len() as int + 1) =~= body);
    lemma_neat(body);
    let shown = "**"@ + tag + "** "@ + body;
    assert(shown[0] == '*' && shown.last() == body.last());
    assert(!is_space('*'));
    lemma_neat(shown);
    let d = sorted(lines_of(line));
    assert(d.other =~= seq![shown]);
    lemma_sections(line);
    assert(Seq::<Seq<char>>::empty().push(shown)[0] == shown);
}

/// Whether `w` holds no white space.
pub open spec fn plain(w: Seq<char>) -> bool {
    forall|i: int| 0 <= i < w.len() ==> !is_space(#[trigger] w[i])
}

proof fn lemma_other_tag(tag: Seq<char>, body: Seq<char>, tags: Seq<Seq<char>>)
    requires
        plain(tag),
        forall|i: int|
            0 <= i < tags.len() ==> exists|w: Seq<char>|
                #[trigger] tags[i] == "@"@ + w && w != tag && plain(w),
    ensures
        after_tag("@"@ + tag + " "@ + body, tags) is None,
    decreases tags.len(),
{
    if tags.len() > 0 {
        let line = "@"@ + tag + " "@ + body;
        reveal_strlit("@");
        reveal_strlit(" ");
        assert(tags[0] == tags[0]);
        let w = choose|w: Seq<char>| tags[0] == "@"@ + w && w != tag && plain(w);
        let n = tags[0].len() as int;
        let rest = line.skip(n);
        if tags[0].is_prefix_of(line) && (rest.len() == 0 || is_space(rest[0])) {
            assert forall|i: int| 0 <= i < w.len() implies w[i] == line[i + 1] by {
                assert(tags[0][i + 1] == line[i + 1]);
            }
            if w.len() > tag.len() {
                assert(line[tag.len() as int + 1] == ' ');
                assert(w[tag.len() as int] == ' ');
                assert(is_space(' '));
            } else if w.len() < tag.len() {
                assert(rest[0] == line[n]);
                assert(line[n] == tag[n - 1]);
            } else {
                assert(w =~= tag);
            }
        }
        let others = tags.drop_first();
        assert forall|i: int| 0 <= i < others.len() implies exists|w: Seq<char>|
            #[trigger] others[i] == "@"@ + w && w != tag && plain(w) by {
            assert(others[i] == tags[i + 1]);
            let w = choose|w: Seq<char>| tags[i + 1] == "@"@ + w && w != tag && plain(w);
            assert(others[i] == "@"@ + w && w != tag && plain(w));
        }
        lemma_other_tag(tag, body, others);
    }
}

/// The items of a section, where every line has a tag, are the lines with its
/// tags, in their order.
pub proof fn law_tagged_lines(lines: Seq<Seq<char>>)
    requires
        forall|i: int| 0 <= i < lines.len() ==> has_tag(#[trigger] lines[i]),
    ensures
        ({
            let d = sorted(lines);
            &&& d.lead.len() == 0
            &&& d.params == lines.filter(|l: Seq<char>| is_param(l)).map_values(
                |l: Seq<char>| param_line(after_tag(trimmed(l), param_tags())->0),
            )
            &&& d.returns == lines.filter(|l: Seq<char>| is_return(l)).map_values(
                |l: Seq<char>| return_line(after_tag(trimmed(l), return_tags())->0),
            )
            &&& d.other == lines.filter(|l: Seq<char>| is_other(l)).map_values(
                |l: Seq<char>| other_line(trimmed(l).skip(1)),
            )
            &&& lines.len() > 0 ==> d.at == (if is_param(lines.last()) {
                Section::Params
            } else if is_return(lines.last()) {
                Section::Returns
            } else {
                Section::Other
            })
        }),
    decreases lines.len(),
{
    reveal(Seq::filter);
    let ps = |l: Seq<char>| is_param(l);
    let rs = |l: Seq<char>| is_return(l);
    let os = |l: Seq<char>| is_other(l);
    let pw = |l: Seq<char>| param_line(after_tag(trimmed(l), param_tags())->0);
    let rw = |l: Seq<char>| return_line(after_tag(trimmed(l), return_tags())->0);
    let ow = |l: Seq<char>| other_line(trimmed(l).skip(1));
    let d = sorted(lines);
    if lines.len() == 0 {
        assert(d.params =~= lines.filter(ps).map_values(pw));
        assert(d.returns =~= lines.filter(rs).map_values(rw));
        assert(d.other =~= lines.filter(os).map_values(ow));
    } else {
        let front = lines.drop_last();
        let l = lines.last();
        assert forall|i: int| 0 <= i < front.len() implies has_tag(#[trigger] front[i]) by {
            assert(front[i] == lines[i]);
        }
        law_tagged_lines(front);
        assert(lines[lines.len() - 1] == l);
        lemma_has_tag(l);
        if is_param(l) {
            assert(front.filter(ps).push(l).map_values(pw) =~= front.filter(ps).map_values(pw).push(
                pw(l),
            ));
        } else if is_return(l) {
            assert(front.filter(rs).push(l).map_values(rw) =~= front.filter(rs).map_values(rw).push(
                rw(l),
            ));
        } else {
            assert(front.filter(os).push(l).map_values(ow) =~= front.filter(os).map_values(ow).push(
                ow(l),
            ));
        }
        assert(d.params =~= lines.filter(ps).map_values(pw));
        assert(d.returns =~= lines.filter(rs).map_values(rw));
        assert(d.other =~= lines.filter(os).map_values(ow));
    }
}

/// What a line without a tag adds to the item before it: a bullet begins a line
/// of its own, other text goes on behind a space, a blank line adds nothing.
pub open spec fn addition(line: Seq<char>) -> Seq<char> {
    if line.len() == 0 {
        seq![]
    } else if line[0] == '-' || line[0] == '*' || line[0] == '\u{2022}' {
        "  \n  - "@ + trimmed_start(line.skip(1), Class::Space)
    } else {
        " "@ + line
    }
}

/// A line without a tag belongs to the last item before it, and before the first
/// tag to the description.
pub proof fn law_untagged_lines(lines: Seq<Seq<char>>, l: Seq<char>)
    requires
        !has_tag(l),
    ensures
        ({
            let d = sorted(lines);
            let all = sorted(lines.push(l));
            let more = addition(trimmed(l));
            &&& d.at is Lead ==> all == (Sorted { lead: d.lead.push(trimmed(l)), ..d })
            &&& d.at is Params ==> d.params.len() > 0 && all == (Sorted {
                params: d.params.drop_last().push(d.params.last() + more),
                ..d
            })
            &&& d.at is Returns ==> d.returns.len() > 0 && all == (Sorted {
                returns: d.returns.drop_last().push(d.returns.last() + more),
                ..d
            })
            &&& d.at is Other ==> d.other.len() > 0 && all == (Sorted {
                other: d.other.drop_last().push(d.other.last() + more),
                ..d
            })
        }),
{
    law_one_item_per_tag(lines);
    lemma_has_tag(l);
    assert(lines.push(l).drop_last() =~= lines);
    let d = sorted(lines);
    let all = sorted(lines.push(l));
    let line = trimmed(l);
    let more = addition(line);
    match d.at {
        Section::Lead => {},
        Section::Params => {
            assert(d.params.last() + (" "@ + line) =~= d.params.last() + " "@ + line);
            let b = trimmed_start(line.skip(1), Class::Space);
            assert(d.params.last() + ("  \n  - "@ + b) =~= d.params.last() + "  \n  - "@ + b);
            assert(d.params.last() + Seq::<char>::empty() =~= d.params.last());
            assert(all.params =~= d.params.drop_last().push(d.params.last() + more));
        },
        Section::Returns => {
            assert(d.returns.last() + (" "@ + line) =~= d.returns.last() + " "@ + line);
            let b = trimmed_start(line.skip(1), Class::Space);
            assert(d.returns.last() + ("  \n  - "@ + b) =~= d.returns.last() + "  \n  - "@ + b);
            assert(d.returns.last() + Seq::<char>::empty() =~= d.returns.last());
            assert(all.returns =~= d.returns.drop_last().push(d.returns.last() + more));
        },
        Section::Other => {
            assert(d.other.last() + (" "@ + line) =~= d.other.last() + " "@ + line);
            let b = trimmed_start(line.skip(1), Class::Space);
            assert(d.other.last() + ("  \n  - "@ + b) =~= d.other.last() + "  \n  - "@ + b);
            assert(d.other.last() + Seq::<char>::empty() =~= d.other.last());
            assert(all.other =~= d.other.drop_last().push(d.other.last() + more));
        },
    }
}

/// Two parts of a text with a blank line between them, where both are there.
pub open spec fn and_part(a: Seq<char>, b: Seq<char>) -> Seq<char> {
    if a.len() == 0 {
        b
    } else if b.len() == 0 {
        a
    } else {
        a + "\n\n"@ + b
    }
}

/// The items of a section under its heading; nothing where there are none.
pub open spec fn under(heading: Seq<char>, items: Seq<Seq<char>>) -> Seq<char> {
    if items.len() == 0 {
        seq![]
    } else {
        heading + joined(items, "  \n"@)
    }
}

proof fn lemma_joined_not_empty(items: Seq<Seq<char>>, sep: Seq<char>)
    requires
        items.len() > 0,
        items[0].len() > 0,
    ensures
        joined(items, sep).len() > 0,
    decreases items.len(),
{
    if items.len() > 1 {
        assert(items.drop_last()[0] == items[0]);
        lemma_joined_not_empty(items.drop_last(), sep);
    }
}

proof fn lemma_other_not_empty(lines: Seq<Seq<char>>)
    ensures
        forall|i: int|
            0 <= i < sorted(lines).other.len() ==> (#[trigger] sorted(lines).other[i]).len() > 0,
    decreases lines.len(),
{
    if lines.len() > 0 {
        lemma_other_not_empty(lines.drop_last());
        law_one_item_per_tag(lines.drop_last());
        let rest = trimmed(lines.last()).skip(1);
        let n = first_of(rest, Class::Space);
        let body = if n < rest.len() {
            rest.skip(n + 1)
        } else {
            seq![]
        };
        let whole = "**"@ + rest.take(n) + "** "@ + trimmed(body);
        reveal_strlit("**");
        assert(whole[0] == '*');
        assert(!is_space('*'));
        lemma_keeps(whole, 0, Class::Space);
        assert(other_line(rest).len() > 0);
    }
}

proof fn lemma_keeps(s: Seq<char>, i: int, k: Class)
    requires
        0 <= i < s.len(),
        !k.has(s[i]),
    ensures
        trimmed_of(s, k).len() > 0,
{
    law_trimmed(s, k);
}

/// A doc comment is shown as its description, its parameters, its return values
/// and its other tags, in this order whatever their order in the comment, with a
/// blank line between those that are there.
pub proof fn law_order_of_sections(doc: Seq<char>)
    ensures
        ({
            let d = sorted(lines_of(doc));
            doc_text(doc) == and_part(
                and_part(
                    and_part(
                        trimmed(joined(d.lead, "\n"@)),
                        under("**Parameters**\n\n"@, d.params),
                    ),
                    under("**Returns**\n\n"@, d.returns),
                ),
                joined(d.other, "\n\n"@),
            )
        }),
{
    let d = sorted(lines_of(doc));
    lemma_other_not_empty(lines_of(doc));
    if d.other.len() > 0 {
        assert(d.other[0].len() > 0);
        lemma_joined_not_empty(d.other, "\n\n"@);
    }
    reveal_strlit("**Parameters**\n\n");
    reveal_strlit("**Returns**\n\n");
    let sep = "\n\n"@;
    let none = Seq::<Seq<char>>::empty();
    let lead = trimmed(joined(d.lead, "\n"@));
    let p = under("**Parameters**\n\n"@, d.params);
    let r = under("**Returns**\n\n"@, d.returns);
    let o = joined(d.other, sep);
    let one = and_if(none, lead.len() > 0, lead);
    let two = and_if(one, d.params.len() > 0, "**Parameters**\n\n"@ + joined(d.params, "  \n"@));
    let three = and_if(two, d.returns.len() > 0, "**Returns**\n\n"@ + joined(d.returns, "  \n"@));
    let four = and_if(three, d.other.len() > 0, o);
    lemma_and_part(none, lead.len() > 0, lead);
    lemma_and_part(one, d.params.len() > 0, p);
    lemma_and_part(two, d.returns.len() > 0, r);
    lemma_and_part(three, d.other.len() > 0, o);
    assert(joined(none, sep) =~= seq![]);
}

proof fn lemma_and_part(parts: Seq<Seq<char>>, there: bool, part: Seq<char>)
    requires
        there <==> part.len() > 0,
        parts.len() > 0 ==> parts[0].len() > 0,
    ensures
        joined(and_if(parts, there, part), "\n\n"@) == and_part(joined(parts, "\n\n"@), part),
        and_if(parts, there, part).len() > 0 ==> and_if(parts, there, part)[0].len() > 0,
{
    let all = and_if(parts, there, part);
    if there {
        assert(all.drop_last() =~= parts);
        if parts.len() > 0 {
            lemma_joined_not_empty(parts, "\n\n"@);
        }
    }
}

/// On `alias.name` what has to be read is the module that is imported as
/// `alias`, for its member `name`.
pub proof fn law_hover_target(
    f: FileView,
    position: Position,
    i: int,
    p: int,
    alias: Seq<char>,
    name: Seq<char>,
)
    requires
        at(f, position, i, p),
        selected(f, i, p, alias),
        text_of(f.source, f.tree.nodes[i]) == Some(name),
        import_named(f.imports, alias) is Some,
        path_of_uri(f.uri) is Some,
    ensures
        member_at(f, position) == Some((import_named(f.imports, alias)->0.module, name)),
{
}

} // verus!
