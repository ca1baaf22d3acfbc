//! Hover texts: signatures and doc comments in Markdown.

use vstd::prelude::*;
use vstd::slice::slice_subrange;
use vstd::string::*;

use crate::document::FileState;
use crate::document::FileView;
use crate::exports::exported;
use crate::exports::exports_with_tree;
use crate::exports::first_member;
use crate::exports::members_view;
use crate::exports::ExportMember;
use crate::exports::ExportView;
use crate::exports::ItemKind;
use crate::lsp::Position;
use crate::references::find_selected_module;
use crate::references::identifier_at;
use crate::references::identifier_node;
use crate::references::selected_module;
use crate::resolver::path_of_uri;
use crate::resolver::uri_to_path;
use crate::syntax::text_of;
use crate::text::chars;
use crate::text::copy;
use crate::text::find;
use crate::text::find_text;
use crate::text::first_of;
use crate::text::is_space;
use crate::text::is_whitespace;
use crate::text::join;
use crate::text::joined;
use crate::text::lines;
use crate::text::lines_of;
use crate::text::opt_view;
use crate::text::pieces;
use crate::text::position_of;
use crate::text::push_chars;
use crate::text::push_text;
use crate::text::same_str;
use crate::text::string;
use crate::text::strip_prefix;
use crate::text::texts;
use crate::text::trim;
use crate::text::trim_start;
use crate::text::trimmed;
use crate::text::trimmed_start;
use crate::text::Class;
use crate::text_facts::lemma_joined_first;
use crate::text_facts::lemma_pieces;
use crate::text_facts::lemma_pieces_of_two;
use crate::text_facts::lemma_texts_push;
use crate::text_facts::lemma_trimmed_push;

verus! {

/// What follows the first of `tags` that `line` begins with as a whole word.
pub open spec fn after_tag(line: Seq<char>, tags: Seq<Seq<char>>) -> Option<Seq<char>>
    decreases tags.len(),
{
    if tags.len() == 0 {
        None
    } else {
        let rest = line.skip(tags[0].len() as int);
        if tags[0].is_prefix_of(line) && (rest.len() == 0 || is_space(rest[0])) {
            Some(trimmed(rest))
        } else {
            after_tag(line, tags.drop_first())
        }
    }
}

pub open spec fn param_tags() -> Seq<Seq<char>> {
    seq!["@param"@, "@arg"@, "@argument"@]
}

pub open spec fn return_tags() -> Seq<Seq<char>> {
    seq!["@return"@, "@returns"@]
}

/// A type in braces before the rest of a tag's body.
pub open spec fn braced(body: Seq<char>) -> (Option<Seq<char>>, Seq<char>) {
    let inner = body.skip(1);
    let close = first_of(inner, Class::Only('}'));
    if body.len() > 0 && body[0] == '{' && close < inner.len() {
        (Some(trimmed(inner.take(close))), trimmed(inner.skip(close + 1)))
    } else {
        (None, body)
    }
}

/// The type and description that follow a parameter's name.
pub open spec fn typed(ty: Option<Seq<char>>, rest: Seq<char>) -> (Option<Seq<char>>, Seq<char>) {
    if rest.len() > 0 && rest[0] == ':' {
        let after = trimmed_start(rest.skip(1), Class::Space);
        match position_of(after, " - "@) {
            Some(i) => (Some(trimmed(after.take(i))), after.skip(i + 3)),
            None => (ty, after),
        }
    } else if rest.len() > 0 && rest[0] == '-' {
        (ty, rest.skip(1))
    } else {
        match position_of(rest, " - "@) {
            Some(i) => (ty, rest.skip(i + 3)),
            None => (ty, rest),
        }
    }
}

/// The line for a parameter: its name, type and description.
pub open spec fn param_line(body: Seq<char>) -> Seq<char> {
    let (braces, body) = braced(body);
    let n = first_of(body, Class::ColonOrSpace);
    let (ty, rest) = typed(braces, trimmed_start(body.skip(n), Class::Space));
    let name = "`"@ + body.take(n) + "`"@;
    let named = match ty {
        Some(t) => if t.len() > 0 {
            name + " *("@ + t + ")*"@
        } else {
            name
        },
        None => name,
    };
    let desc = trimmed(rest);
    if desc.len() > 0 {
        named + " — "@ + desc
    } else {
        named
    }
}

/// The name and description of a named return value.
pub open spec fn named_return(body: Seq<char>) -> Option<(Seq<char>, Seq<char>)> {
    match position_of(body, " - "@) {
        Some(i) => Some((body.take(i), body.skip(i + 3))),
        None => {
            let colon = first_of(body, Class::Only(':'));
            let name = trimmed(body.take(colon));
            if colon < body.len() && name.len() > 0 && first_of(name, Class::Space) == name.len() {
                Some((name, body.skip(colon + 1)))
            } else {
                None
            }
        },
    }
}

/// The line for a return value.
pub open spec fn return_line(body: Seq<char>) -> Seq<char> {
    let (ty, body) = braced(body);
    let text = match named_return(body) {
        Some((name, desc)) => "`"@ + trimmed(name) + "` — "@ + trimmed(desc),
        None => body,
    };
    match ty {
        Some(t) => if t.len() > 0 {
            "*("@ + t + ")* "@ + text
        } else {
            text
        },
        None => text,
    }
}

/// The line for any other tag: `rest` is what follows its `@`.
pub open spec fn other_line(rest: Seq<char>) -> Seq<char> {
    let n = first_of(rest, Class::Space);
    let body = if n < rest.len() {
        rest.skip(n + 1)
    } else {
        seq![]
    };
    trimmed("**"@ + rest.take(n) + "** "@ + trimmed(body))
}

/// The part of a doc comment that a line without a tag goes to.
#[derive(Clone, Copy)]
pub enum Section {
    Lead,
    Params,
    Returns,
    Other,
}

/// A doc comment, sorted into its sections.
#[verifier::ext_equal]
pub struct Sorted {
    pub lead: Seq<Seq<char>>,
    pub params: Seq<Seq<char>>,
    pub returns: Seq<Seq<char>>,
    pub other: Seq<Seq<char>>,
    pub at: Section,
}

/// `items` with a further line of text for the last of them: a bullet begins
/// a line of its own, other text goes on behind a space.
pub open spec fn extended(items: Seq<Seq<char>>, line: Seq<char>) -> Seq<Seq<char>> {
    if items.len() == 0 {
        items.push(line)
    } else if line.len() > 0 && (line[0] == '-' || line[0] == '*' || line[0] == '•') {
        items.update(
            items.len() - 1,
            items.last() + "  \n  - "@ + trimmed_start(line.skip(1), Class::Space),
        )
    } else {
        items.update(items.len() - 1, items.last() + " "@ + line)
    }
}

/// One more line of a doc comment.
pub open spec fn sorted_in(d: Sorted, raw: Seq<char>) -> Sorted {
    let line = trimmed(raw);
    if after_tag(line, param_tags()) is Some {
        Sorted {
            params: d.params.push(param_line(after_tag(line, param_tags())->0)),
            at: Section::Params,
            ..d
        }
    } else if after_tag(line, return_tags()) is Some {
        Sorted {
            returns: d.returns.push(return_line(after_tag(line, return_tags())->0)),
            at: Section::Returns,
            ..d
        }
    } else if line.len() > 0 && line[0] == '@' {
        Sorted { other: d.other.push(other_line(line.skip(1))), at: Section::Other, ..d }
    } else {
        match d.at {
            Section::Lead => Sorted { lead: d.lead.push(line), ..d },
            Section::Params => if line.len() > 0 {
                Sorted { params: extended(d.params, line), ..d }
            } else {
                d
            },
            Section::Returns => if line.len() > 0 {
                Sorted { returns: extended(d.returns, line), ..d }
            } else {
                d
            },
            Section::Other => if line.len() > 0 {
                Sorted { other: extended(d.other, line), ..d }
            } else {
                d
            },
        }
    }
}

/// The lines of a doc comment, sorted into sections.
pub open spec fn sorted(lines: Seq<Seq<char>>) -> Sorted
    decreases lines.len(),
{
    if lines.len() == 0 {
        Sorted { lead: seq![], params: seq![], returns: seq![], other: seq![], at: Section::Lead }
    } else {
        sorted_in(sorted(lines.drop_last()), lines.last())
    }
}

/// `parts` with `part` behind it, where `there`.
pub open spec fn and_if(parts: Seq<Seq<char>>, there: bool, part: Seq<char>) -> Seq<Seq<char>> {
    if there {
        parts.push(part)
    } else {
        parts
    }
}

/// A doc comment as Markdown: the description, then a section each for
/// parameters, return values and other tags.
pub open spec fn doc_text(doc: Seq<char>) -> Seq<char> {
    let d = sorted(lines_of(doc));
    let lead = trimmed(joined(d.lead, "\n"@));
    let one = and_if(seq![], lead.len() > 0, lead);
    let two = and_if(
        one,
        d.params.len() > 0,
        "**Parameters**\n\n"@ + joined(d.params, "  \n"@),
    );
    let three = and_if(two, d.returns.len() > 0, "**Returns**\n\n"@ + joined(d.returns, "  \n"@));
    let four = and_if(three, d.other.len() > 0, joined(d.other, "\n\n"@));
    joined(four, "\n\n"@)
}

/// Whether a line names a parameter.
pub open spec fn is_param(raw: Seq<char>) -> bool {
    after_tag(trimmed(raw), param_tags()) is Some
}

/// Whether a line tells of a return value.
pub open spec fn is_return(raw: Seq<char>) -> bool {
    !is_param(raw) && after_tag(trimmed(raw), return_tags()) is Some
}

/// Whether a line begins with any other tag.
pub open spec fn is_other(raw: Seq<char>) -> bool {
    !is_param(raw) && !is_return(raw) && trimmed(raw).len() > 0 && trimmed(raw)[0] == '@'
}

/// The number of lines that `which` holds of.
pub open spec fn count_lines(lines: Seq<Seq<char>>, which: spec_fn(Seq<char>) -> bool) -> nat
    decreases lines.len(),
{
    if lines.len() == 0 {
        0
    } else {
        count_lines(lines.drop_last(), which) + (if which(lines.last()) {
            1nat
        } else {
            0nat
        })
    }
}

/// Every tag of a doc comment gets one item in its section; lines that follow
/// it go into that item and make none of their own.
pub proof fn law_one_item_per_tag(lines: Seq<Seq<char>>)
    ensures
        sorted(lines).params.len() == count_lines(lines, |l: Seq<char>| is_param(l)),
        sorted(lines).returns.len() == count_lines(lines, |l: Seq<char>| is_return(l)),
        sorted(lines).other.len() == count_lines(lines, |l: Seq<char>| is_other(l)),
        match sorted(lines).at {
            Section::Lead => true,
            Section::Params => sorted(lines).params.len() > 0,
            Section::Returns => sorted(lines).returns.len() > 0,
            Section::Other => sorted(lines).other.len() > 0,
        },
    decreases lines.len(),
{
    if lines.len() > 0 {
        law_one_item_per_tag(lines.drop_last());
    }
}

/// The lines without the white space at their ends.
pub open spec fn bare(lines: Seq<Seq<char>>) -> Seq<Seq<char>> {
    lines.map_values(|l: Seq<char>| trimmed(l))
}

proof fn lemma_plain(lines: Seq<Seq<char>>)
    requires
        forall|i: int|
            0 <= i < lines.len() ==> !is_param(#[trigger] lines[i]) && !is_return(lines[i])
                && !is_other(lines[i]),
    ensures
        sorted(lines) == (Sorted {
            lead: bare(lines),
            params: seq![],
            returns: seq![],
            other: seq![],
            at: Section::Lead,
        }),
    decreases lines.len(),
{
    if lines.len() > 0 {
        let front = lines.drop_last();
        assert forall|i: int| 0 <= i < front.len() implies !is_param(#[trigger] front[i])
            && !is_return(front[i]) && !is_other(front[i]) by {
            assert(front[i] == lines[i]);
        }
        lemma_plain(front);
        assert(lines[lines.len() - 1] == lines.last());
        assert(bare(front).push(trimmed(lines.last())) =~= bare(lines));
    } else {
        assert(bare(lines) =~= seq![]);
    }
}

/// A doc comment without tags stays as it is, but for white space at the ends
/// of its lines and blank lines at its own ends.
pub proof fn law_plain_doc_stays(doc: Seq<char>)
    requires
        forall|i: int|
            0 <= i < lines_of(doc).len() ==> !is_param(#[trigger] lines_of(doc)[i]) && !is_return(
                lines_of(doc)[i],
            ) && !is_other(lines_of(doc)[i]),
    ensures
        doc_text(doc) == trimmed(joined(bare(lines_of(doc)), "\n"@)),
{
    lemma_plain(lines_of(doc));
    let lead = trimmed(joined(bare(lines_of(doc)), "\n"@));
    if lead.len() > 0 {
        assert(Seq::<Seq<char>>::empty().push(lead)[0] == lead);
    } else {
        assert(lead =~= seq![]);
    }
}

/// Whether a line, without the white space at its ends, begins with `@`.
pub open spec fn has_tag(raw: Seq<char>) -> bool {
    trimmed(raw).len() > 0 && trimmed(raw)[0] == '@'
}

proof fn lemma_after_tag(line: Seq<char>, tags: Seq<Seq<char>>)
    requires
        forall|i: int| 0 <= i < tags.len() ==> (#[trigger] tags[i]).len() > 0 && tags[i][0] == '@',
        after_tag(line, tags) is Some,
    ensures
        line.len() > 0 && line[0] == '@',
    decreases tags.len(),
{
    if tags.len() > 0 {
        if tags[0].is_prefix_of(line) {
            assert(line[0] == tags[0][0]);
        } else {
            let rest = tags.drop_first();
            assert forall|i: int| 0 <= i < rest.len() implies (#[trigger] rest[i]).len() > 0
                && rest[i][0] == '@' by {
                assert(rest[i] == tags[i + 1]);
            }
            lemma_after_tag(line, rest);
        }
    }
}

/// A line has a tag if and only if it names a parameter, tells of a return
/// value or begins with another tag.
pub proof fn lemma_has_tag(raw: Seq<char>)
    ensures
        has_tag(raw) <==> is_param(raw) || is_return(raw) || is_other(raw),
{
    reveal_strlit("@param");
    reveal_strlit("@arg");
    reveal_strlit("@argument");
    reveal_strlit("@return");
    reveal_strlit("@returns");
    if is_param(raw) {
        lemma_after_tag(trimmed(raw), param_tags());
    }
    if is_return(raw) {
        lemma_after_tag(trimmed(raw), return_tags());
    }
}

/// Lines without tags and then lines of which the first has one are sorted
/// each on their own.
proof fn lemma_sorted_after(a: Seq<Seq<char>>, b: Seq<Seq<char>>)
    requires
        forall|i: int| 0 <= i < a.len() ==> !has_tag(#[trigger] a[i]),
        b.len() > 0,
        has_tag(b[0]),
    ensures
        sorted(b).lead == Seq::<Seq<char>>::empty(),
        sorted(b).at !is Lead,
        sorted(b).params.len() > 0 || sorted(b).returns.len() > 0 || sorted(b).other.len() > 0,
        sorted(a + b) == (Sorted { lead: bare(a), ..sorted(b) }),
    decreases b.len(),
{
    let front = b.drop_last();
    assert((a + b).drop_last() =~= a + front);
    assert((a + b).last() == b.last());
    if front.len() == 0 {
        assert forall|i: int| 0 <= i < a.len() implies !is_param(#[trigger] a[i]) && !is_return(a[i])
            && !is_other(a[i]) by {
            lemma_has_tag(a[i]);
        }
        lemma_plain(a);
        lemma_has_tag(b[0]);
        assert(a + front =~= a);
        assert(sorted(front) == (Sorted {
            lead: seq![],
            params: seq![],
            returns: seq![],
            other: seq![],
            at: Section::Lead,
        }));
    } else {
        assert(front[0] == b[0]);
        lemma_sorted_after(a, front);
    }
}

/// The lines of two texts with a line feed between them.
proof fn lemma_lines_of_two(a: Seq<char>, b: Seq<char>)
    requires
        lines_of(b).len() > 0,
    ensures
        lines_of(a + "\n"@ + b) == pieces(a, '\n') + lines_of(b),
{
    reveal_strlit("\n");
    assert(a + "\n"@ + b =~= a.push('\n') + b);
    lemma_pieces_of_two(a, '\n', b);
    lemma_pieces(a, '\n');
    lemma_pieces(b, '\n');
    let all = pieces(a, '\n') + pieces(b, '\n');
    assert(all.last() == pieces(b, '\n').last());
    assert(all.drop_last() =~= pieces(a, '\n') + pieces(b, '\n').drop_last());
}

/// An empty last line does not show at the end of a trimmed text.
proof fn lemma_last_line(a: Seq<char>)
    ensures
        trimmed(joined(bare(pieces(a, '\n')), "\n"@)) == trimmed(joined(bare(lines_of(a)), "\n"@)),
{
    let cut = pieces(a, '\n');
    lemma_pieces(a, '\n');
    if cut.last().len() == 0 {
        let rest = cut.drop_last();
        let empty = Seq::<char>::empty();
        assert(cut.last() =~= empty);
        assert(trimmed(empty) =~= empty);
        assert(bare(cut).drop_last() =~= bare(rest));
        assert(bare(cut).last() == empty);
        reveal_strlit("\n");
        if rest.len() == 0 {
            assert(joined(bare(cut), "\n"@) == empty);
            assert(joined(bare(rest), "\n"@) == empty);
        } else {
            let text = joined(bare(rest), "\n"@);
            assert(text + "\n"@ + empty =~= text.push('\n'));
            lemma_trimmed_push(text, '\n', Class::Space);
        }
    }
}

/// Lines without tags and then lines of which the first has one are rendered
/// one after the other: nothing behind the first tag gets into the
/// description.
pub proof fn law_description_ends_at_first_tag(a: Seq<char>, b: Seq<char>)
    requires
        forall|i: int| 0 <= i < lines_of(a).len() ==> !has_tag(#[trigger] lines_of(a)[i]),
        lines_of(b).len() > 0,
        has_tag(lines_of(b)[0]),
    ensures
        doc_text(a + "\n"@ + b) == (if doc_text(a).len() == 0 {
            doc_text(b)
        } else {
            doc_text(a) + "\n\n"@ + doc_text(b)
        }),
{
    let cut = pieces(a, '\n');
    let empty = Seq::<char>::empty();
    lemma_pieces(a, '\n');
    assert forall|i: int| 0 <= i < cut.len() implies !has_tag(#[trigger] cut[i]) by {
        if cut.last().len() == 0 {
            if i < cut.len() - 1 {
                assert(lines_of(a)[i] == cut[i]);
            } else {
                assert(trimmed(cut[i]).len() == 0);
            }
        } else {
            assert(lines_of(a)[i] == cut[i]);
        }
    }
    lemma_sorted_after(cut, lines_of(b));
    lemma_lines_of_two(a, b);
    lemma_last_line(a);
    assert forall|i: int| 0 <= i < lines_of(a).len() implies !is_param(#[trigger] lines_of(a)[i])
        && !is_return(lines_of(a)[i]) && !is_other(lines_of(a)[i]) by {
        lemma_has_tag(lines_of(a)[i]);
    }
    law_plain_doc_stays(a);
    let d = sorted(lines_of(b));
    let lead = doc_text(a);
    assert(sorted(lines_of(a + "\n"@ + b)) == (Sorted { lead: bare(cut), ..d }));
    assert(joined(d.lead, "\n"@) =~= empty);
    assert(trimmed(empty) =~= empty);
    let none = Seq::<Seq<char>>::empty();
    let two = and_if(none, d.params.len() > 0, "**Parameters**\n\n"@ + joined(d.params, "  \n"@));
    let three = and_if(two, d.returns.len() > 0, "**Returns**\n\n"@ + joined(d.returns, "  \n"@));
    let rest = and_if(three, d.other.len() > 0, joined(d.other, "\n\n"@));
    assert(doc_text(b) == joined(rest, "\n\n"@));
    assert(rest.len() > 0);
    if lead.len() > 0 {
        let one = seq![lead];
        let two1 = and_if(one, d.params.len() > 0, "**Parameters**\n\n"@ + joined(d.params, "  \n"@));
        let three1 = and_if(
            two1,
            d.returns.len() > 0,
            "**Returns**\n\n"@ + joined(d.returns, "  \n"@),
        );
        let four1 = and_if(three1, d.other.len() > 0, joined(d.other, "\n\n"@));
        assert(none.push(lead) =~= one);
        assert(two1 =~= one + two);
        assert(three1 =~= one + three);
        assert(four1 =~= one + rest);
        lemma_joined_first(lead, rest, "\n\n"@);
    }
}

/// Strips a leading tag, one of `tags`, that ends at a word boundary.
fn strip_tag<'a>(line: &'a [char], tags: &[&str]) -> (r: Option<&'a [char]>)
    ensures
        match r {
            Some(t) => after_tag(line@, tags@.map_values(|t: &str| t@)) == Some(t@),
            None => after_tag(line@, tags@.map_values(|t: &str| t@)) is None,
        },
{
    let ghost all = tags@.map_values(|t: &str| t@);
    let mut i: usize = 0;
    assert(all.skip(0) =~= all);
    while i < tags.len()
        invariant
            i <= tags@.len(),
            all == tags@.map_values(|t: &str| t@),
            after_tag(line@, all) == after_tag(line@, all.skip(i as int)),
        decreases tags@.len() - i,
    {
        assert(all.skip(i as int)[0] == tags@[i as int]@);
        assert(all.skip(i as int).drop_first() =~= all.skip(i + 1));
        if let Some(rest) = strip_prefix(line, tags[i]) {
            if rest.len() == 0 || is_whitespace(rest[0]) {
                return Some(trim(rest));
            }
        }
        i += 1;
    }
    None
}

/// Takes a type in braces off the front of a tag's body.
fn split_braces(body: &[char]) -> (r: (Option<&[char]>, &[char]))
    ensures
        braced(body@) == (match r.0 {
            Some(t) => (Some(t@), r.1@),
            None => (None, r.1@),
        }),
{
    if body.len() == 0 || body[0] != '{' {
        return (None, body);
    }
    let inner = slice_subrange(body, 1, body.len());
    let close = find(inner, Class::Only('}'));
    if close == inner.len() {
        return (None, body);
    }
    (
        Some(trim(slice_subrange(inner, 0, close))),
        trim(slice_subrange(inner, close + 1, inner.len())),
    )
}

/// The description of a parameter and its type, where it has one.
fn split_type<'a>(ty: Option<&'a [char]>, rest: &'a [char]) -> (r: (Option<&'a [char]>, &'a [char]))
    ensures
        typed(
            match ty {
                Some(t) => Some(t@),
                None => None,
            },
            rest@,
        ) == (match r.0 {
            Some(t) => (Some(t@), r.1@),
            None => (None, r.1@),
        }),
{
    proof {
        reveal_strlit(" - ");
    }
    if rest.len() > 0 && rest[0] == ':' {
        let after = trim_start(slice_subrange(rest, 1, rest.len()), Class::Space);
        match find_text(after, " - ") {
            Some(i) => (
                Some(trim(slice_subrange(after, 0, i))),
                slice_subrange(after, i + 3, after.len()),
            ),
            None => (ty, after),
        }
    } else if rest.len() > 0 && rest[0] == '-' {
        (ty, slice_subrange(rest, 1, rest.len()))
    } else {
        match find_text(rest, " - ") {
            Some(i) => (ty, slice_subrange(rest, i + 3, rest.len())),
            None => (ty, rest),
        }
    }
}

fn write_param(body: &[char]) -> (r: Vec<char>)
    ensures
        r@ == param_line(body@),
{
    let (braces, body) = split_braces(body);
    let n = find(body, Class::ColonOrSpace);
    let (ty, rest) = split_type(
        braces,
        trim_start(slice_subrange(body, n, body.len()), Class::Space),
    );
    let mut out = chars("`");
    push_chars(&mut out, slice_subrange(body, 0, n));
    push_text(&mut out, "`");
    if let Some(t) = ty {
        if t.len() > 0 {
            push_text(&mut out, " *(");
            push_chars(&mut out, t);
            push_text(&mut out, ")*");
        }
    }
    let desc = trim(rest);
    if desc.len() > 0 {
        push_text(&mut out, " — ");
        push_chars(&mut out, desc);
    }
    out
}

/// Formats the body of a `@param` tag: `name: type - desc`, `name - desc`,
/// `{type} name desc` or `name desc`.
pub fn format_param(body: &str) -> (r: String)
    ensures
        r@ == param_line(body@),
{
    let body = chars(body);
    let out = write_param(&body);
    string(&out)
}

/// The name and description of a named return value.
fn split_return(body: &[char]) -> (r: Option<(&[char], &[char])>)
    ensures
        named_return(body@) == (match r {
            Some((n, d)) => Some((n@, d@)),
            None => None,
        }),
{
    proof {
        reveal_strlit(" - ");
    }
    if let Some(i) = find_text(body, " - ") {
        return Some((slice_subrange(body, 0, i), slice_subrange(body, i + 3, body.len())));
    }
    let colon = find(body, Class::Only(':'));
    let name = trim(slice_subrange(body, 0, colon));
    if colon < body.len() && name.len() > 0 && find(name, Class::Space) == name.len() {
        Some((name, slice_subrange(body, colon + 1, body.len())))
    } else {
        None
    }
}

fn write_return(body: &[char]) -> (r: Vec<char>)
    ensures
        r@ == return_line(body@),
{
    let (ty, body) = split_braces(body);
    let text = match split_return(body) {
        Some((name, desc)) => {
            let mut t = chars("`");
            push_chars(&mut t, trim(name));
            push_text(&mut t, "` — ");
            push_chars(&mut t, trim(desc));
            t
        },
        None => copy(body),
    };
    if let Some(t) = ty {
        if t.len() > 0 {
            let mut out = chars("*(");
            push_chars(&mut out, t);
            push_text(&mut out, ")* ");
            push_chars(&mut out, &text);
            return out;
        }
    }
    text
}

/// Formats the body of a `@return` tag: `name: desc`, `name - desc` or `desc`,
/// each of them behind a type in braces or without.
pub fn format_return(body: &str) -> (r: String)
    ensures
        r@ == return_line(body@),
{
    let body = chars(body);
    let out = write_return(&body);
    string(&out)
}

fn write_other(rest: &[char]) -> (r: Vec<char>)
    ensures
        r@ == other_line(rest@),
{
    let n = find(rest, Class::Space);
    let body = if n < rest.len() {
        slice_subrange(rest, n + 1, rest.len())
    } else {
        slice_subrange(rest, n, rest.len())
    };
    let mut out = chars("**");
    push_chars(&mut out, slice_subrange(rest, 0, n));
    push_text(&mut out, "** ");
    push_chars(&mut out, trim(body));
    copy(trim(&out))
}

/// Puts one more line to the last of `items`.
fn extend(items: &mut Vec<Vec<char>>, line: &[char])
    ensures
        texts(final(items)@) == extended(texts(old(items)@), line@),
{
    let ghost before = texts(items@);
    let mut last = match items.pop() {
        Some(t) => t,
        None => {
            items.push(copy(line));
            assert(texts(items@) =~= before.push(line@));
            return;
        },
    };
    let ghost kept = items@;
    assert(last@ == before.last());
    if line.len() > 0 && (line[0] == '-' || line[0] == '*' || line[0] == '•') {
        push_text(&mut last, "  \n  - ");
        push_chars(&mut last, trim_start(slice_subrange(line, 1, line.len()), Class::Space));
    } else {
        push_text(&mut last, " ");
        push_chars(&mut last, line);
    }
    let ghost added = last@;
    items.push(last);
    assert(texts(items@) =~= before.update(before.len() - 1, added));
}

/// The running state of [`sorted`].
struct Sorting {
    lead: Vec<Vec<char>>,
    params: Vec<Vec<char>>,
    returns: Vec<Vec<char>>,
    other: Vec<Vec<char>>,
    at: Section,
}

impl View for Sorting {
    type V = Sorted;

    closed spec fn view(&self) -> Sorted {
        Sorted {
            lead: texts(self.lead@),
            params: texts(self.params@),
            returns: texts(self.returns@),
            other: texts(self.other@),
            at: self.at,
        }
    }
}

impl Sorting {
    fn line(&mut self, raw: &[char])
        ensures
            final(self)@ == sorted_in(old(self)@, raw@),
    {
        let line = trim(raw);
        let params = ["@param", "@arg", "@argument"];
        let results = ["@return", "@returns"];
        proof {
            assert(params@.map_values(|t: &str| t@) =~= param_tags());
            assert(results@.map_values(|t: &str| t@) =~= return_tags());
        }
        if let Some(rest) = strip_tag(line, &params) {
            let item = write_param(rest);
            proof {
                lemma_texts_push(self.params@, item);
            }
            self.params.push(item);
            self.at = Section::Params;
        } else if let Some(rest) = strip_tag(line, &results) {
            let item = write_return(rest);
            proof {
                lemma_texts_push(self.returns@, item);
            }
            self.returns.push(item);
            self.at = Section::Returns;
        } else if line.len() > 0 && line[0] == '@' {
            let item = write_other(slice_subrange(line, 1, line.len()));
            proof {
                lemma_texts_push(self.other@, item);
            }
            self.other.push(item);
            self.at = Section::Other;
        } else {
            match self.at {
                Section::Lead => {
                    let item = copy(line);
                    proof {
                        lemma_texts_push(self.lead@, item);
                    }
                    self.lead.push(item);
                },
                Section::Params => {
                    if line.len() > 0 {
                        extend(&mut self.params, line);
                    }
                },
                Section::Returns => {
                    if line.len() > 0 {
                        extend(&mut self.returns, line);
                    }
                },
                Section::Other => {
                    if line.len() > 0 {
                        extend(&mut self.other, line);
                    }
                },
            }
        }
    }
}

fn sort_lines(doc: &[char]) -> (r: Sorting)
    ensures
        r@ == sorted(lines_of(doc@)),
{
    let cut = lines(doc);
    let ghost all = lines_of(doc@);
    let mut out = Sorting {
        lead: Vec::new(),
        params: Vec::new(),
        returns: Vec::new(),
        other: Vec::new(),
        at: Section::Lead,
    };
    let mut i: usize = 0;
    assert(out@ =~= sorted(all.take(0)));
    while i < cut.len()
        invariant
            i <= cut@.len(),
            all == cut@.map_values(|t: &[char]| t@),
            out@ == sorted(all.take(i as int)),
        decreases cut@.len() - i,
    {
        assert(all.take(i + 1).drop_last() =~= all.take(i as int));
        assert(all.take(i + 1).last() == cut@[i as int]@);
        out.line(cut[i]);
        i += 1;
    }
    assert(all.take(all.len() as int) =~= all);
    out
}

fn write_doc(doc: &[char]) -> (r: Vec<char>)
    ensures
        r@ == doc_text(doc@),
{
    let d = sort_lines(doc);
    let mut sections: Vec<Vec<char>> = Vec::new();
    assert(texts(sections@) =~= seq![]);
    let lead = join(&d.lead, "\n");
    let lead = trim(&lead);
    if lead.len() > 0 {
        let item = copy(lead);
        proof {
            lemma_texts_push(sections@, item);
        }
        sections.push(item);
    }
    if d.params.len() > 0 {
        let mut item = chars("**Parameters**\n\n");
        push_chars(&mut item, &join(&d.params, "  \n"));
        proof {
            lemma_texts_push(sections@, item);
        }
        sections.push(item);
    }
    if d.returns.len() > 0 {
        let mut item = chars("**Returns**\n\n");
        push_chars(&mut item, &join(&d.returns, "  \n"));
        proof {
            lemma_texts_push(sections@, item);
        }
        sections.push(item);
    }
    if d.other.len() > 0 {
        let item = join(&d.other, "\n\n");
        proof {
            lemma_texts_push(sections@, item);
        }
        sections.push(item);
    }
    join(&sections, "\n\n")
}

/// Renders a doc comment as Markdown, with its `@param` and `@return` tags as
/// sections of their own.
pub fn format_doc(doc: &str) -> (r: String)
    ensures
        r@ == doc_text(doc@),
{
    let doc = chars(doc);
    let out = write_doc(&doc);
    string(&out)
}

/// The text that is shown for a member: its name, with the signature of a
/// function, and its doc comment.
pub open spec fn hover_text(m: ExportView) -> Seq<char> {
    let head = match m.signature {
        Some(sig) => if m.kind == ItemKind::Function {
            m.name + sig
        } else {
            m.name
        },
        None => m.name,
    };
    let code = "```tengo\n"@ + head + "\n```"@;
    match m.doc {
        Some(doc) => code + "\n\n"@ + doc_text(doc),
        None => code,
    }
}

/// The imported module and its member that `alias.member` at `position`
/// names, where the position is on the member.
pub open spec fn member_at(f: FileView, position: Position) -> Option<(Seq<char>, Seq<char>)> {
    match identifier_node(f, position) {
        Some(i) => match (selected_module(f, i), text_of(f.source, f.tree.nodes[i])) {
            (Some(module), Some(member)) => if path_of_uri(f.uri) is Some {
                Some((module, member))
            } else {
                None
            },
            _ => None,
        },
        None => None,
    }
}

/// What is shown for the name at `position`, given the module that it belongs
/// to.
pub open spec fn hovered(f: FileView, position: Position, module: Option<FileView>) -> Option<
    Seq<char>,
> {
    match (member_at(f, position), module) {
        (Some((_, member)), Some(m)) => match first_member(exported(m.source, m.tree), member) {
            Some(found) => Some(hover_text(found)),
            None => None,
        },
        _ => None,
    }
}

/// Renders a member of a module as Markdown.
pub fn render_hover(m: &ExportMember) -> (r: String)
    ensures
        r@ == hover_text(m@),
{
    let mut head = chars(m.name.as_str());
    if m.kind == ItemKind::Function {
        if let Some(sig) = &m.signature {
            push_text(&mut head, sig.as_str());
        }
    }
    let mut out = chars("```tengo\n");
    push_chars(&mut out, &head);
    push_text(&mut out, "\n```");
    if let Some(doc) = &m.doc {
        push_text(&mut out, "\n\n");
        let doc = chars(doc.as_str());
        push_chars(&mut out, &write_doc(&doc));
    }
    string(&out)
}

/// The imported module and its member that the name at `position` is: what
/// has to be read before the name can be shown.
pub fn hover_target(state: &FileState, position: Position) -> (r: Option<(String, String)>)
    ensures
        member_at(state@, position) == (match r {
            Some((module, member)) => Some((module@, member@)),
            None => None,
        }),
{
    let i = match identifier_at(state, position) {
        Some(i) => i,
        None => {
            return None;
        },
    };
    let module = match find_selected_module(state, i) {
        Some(m) => m,
        None => {
            return None;
        },
    };
    let member = match state.tree.text(state.source.as_str(), i) {
        Some(t) => t.to_string(),
        None => {
            return None;
        },
    };
    if uri_to_path(state.uri.as_str()).is_none() {
        return None;
    }
    Some((module, member))
}

/// The first member that is called `name`.
fn find_member<'a>(ms: &'a Vec<ExportMember>, name: &str) -> (r: Option<&'a ExportMember>)
    ensures
        first_member(members_view(ms@), name@) == (match r {
            Some(m) => Some(m@),
            None => None,
        }),
{
    let ghost all = members_view(ms@);
    let mut i: usize = 0;
    assert(all.skip(0) =~= all);
    while i < ms.len()
        invariant
            i <= ms@.len(),
            all == members_view(ms@),
            first_member(all, name@) == first_member(all.skip(i as int), name@),
        decreases ms@.len() - i,
    {
        assert(all.skip(i as int)[0] == ms@[i as int]@);
        assert(all.skip(i as int).drop_first() =~= all.skip(i + 1));
        if same_str(ms[i].name.as_str(), name) {
            return Some(&ms[i]);
        }
        i += 1;
    }
    None
}

/// What is shown for the name at `position`: the signature and the doc
/// comment of a member of an imported module. `module` is the module, where it
/// could be read.
pub fn hover(state: &FileState, position: Position, module: Option<&FileState>) -> (r: Option<String>)
    ensures
        opt_view(r) == hovered(
            state@,
            position,
            match module {
                Some(m) => Some(m@),
                None => None,
            },
        ),
{
    let (_, member) = match hover_target(state, position) {
        Some(t) => t,
        None => {
            return None;
        },
    };
    let module = match module {
        Some(m) => m,
        None => {
            return None;
        },
    };
    let ms = exports_with_tree(module.source.as_str(), &module.tree);
    match find_member(&ms, member.as_str()) {
        Some(m) => Some(render_hover(m)),
        None => None,
    }
}

} // verus!
