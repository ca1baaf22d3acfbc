//! What the server answers to a request to format.

use vstd::prelude::*;
use vstd::string::*;

use crate::completion::index_of_position;
use crate::completion::law_positions_name_places;
use crate::document::FileState;
use crate::document::FileView;
use crate::format::format_with_tree;
use crate::format::formatted;
use crate::lsp::edits_view;
use crate::lsp::Position;
use crate::lsp::Range;
use crate::lsp::TextEdit;
use crate::lsp::TextEditView;
use crate::places::place_after;
use crate::places::Walk;
use crate::text::chars;
use crate::text::same_str;

verus! {

/// The range of a whole text, in the protocol's numbers, of which only the low
/// 32 bits are left.
pub open spec fn whole(s: Seq<char>) -> Range {
    let (line, column) = place_after(s, s.len() as int);
    Range {
        start: Position { line: 0, character: 0 },
        end: Position { line: line as u32, character: column as u32 },
    }
}

/// The edits that format a document: none where it is formatted already, else
/// one that replaces the whole text.
pub open spec fn formatting_edits(f: FileView) -> Seq<TextEditView> {
    let new_text = formatted(f.source, f.tree);
    if new_text == f.source {
        seq![]
    } else {
        seq![TextEditView { range: whole(f.source), new_text }]
    }
}

/// A document gets an edit exactly where formatting changes it, and the edit
/// puts the formatted text in the place of the whole.
pub proof fn law_edit_iff_changed(f: FileView)
    ensures
        formatting_edits(f).len() == 0 <==> formatted(f.source, f.tree) == f.source,
        formatting_edits(f).len() > 0 ==> formatting_edits(f).len() == 1 && formatting_edits(f)[0]
            == (TextEditView { range: whole(f.source), new_text: formatted(f.source, f.tree) }),
{
}

/// The range of a whole text begins before its first character and ends
/// behind its last, where the protocol's numbers reach as far.
pub proof fn law_whole_covers_text(s: Seq<char>)
    requires
        place_after(s, s.len() as int).0 <= u32::MAX,
        place_after(s, s.len() as int).1 <= u32::MAX,
    ensures
        index_of_position(s, whole(s).start) == Some(0int),
        index_of_position(s, whole(s).end) == Some(s.len() as int),
{
    law_positions_name_places(s, whole(s).start, 0);
    law_positions_name_places(s, whole(s).end, s.len() as int);
}

/// The range of a whole text.
pub fn full_document_range(source: &str) -> (r: Range)
    ensures
        r == whole(source@),
{
    let s = chars(source);
    let mut at = Walk::new();
    let mut n: usize = 0;
    while n < s.len()
        invariant
            n <= s@.len(),
            at.is_at(s@, n as int),
        decreases s@.len() - n,
    {
        at.pass(&s, n);
        n += 1;
    }
    #[verifier::truncate]
    let line = at.line as u32;
    #[verifier::truncate]
    let character = at.column as u32;
    Range::new(Position::new(0, 0), Position::new(line, character))
}

/// The edits that format a document.
pub fn formatting(state: &FileState) -> (r: Vec<TextEdit>)
    ensures
        edits_view(r@) == formatting_edits(state@),
{
    let new_text = format_with_tree(state.source.as_str(), &state.tree);
    let mut out: Vec<TextEdit> = Vec::new();
    if same_str(new_text.as_str(), state.source.as_str()) {
        assert(edits_view(out@) =~= seq![]);
        return out;
    }
    let edit = TextEdit { range: full_document_range(state.source.as_str()), new_text };
    let ghost view = edit@;
    out.push(edit);
    assert(edits_view(out@) =~= seq![view]);
    out
}

} // verus!
