//! Places in documents, as the protocol gives them.

use vstd::prelude::*;
use vstd::string::*;

use crate::text::opt_view;

verus! {

/// A place in a document: a line, and a column within it.
#[derive(Debug, Clone, Copy, PartialEq, Eq, Structural)]
pub struct Position {
    pub line: u32,
    pub character: u32,
}

/// The text between two places.
#[derive(Debug, Clone, Copy, PartialEq, Eq, Structural)]
pub struct Range {
    pub start: Position,
    pub end: Position,
}

impl Position {
    pub fn new(line: u32, character: u32) -> (r: Position)
        ensures
            r == (Position { line, character }),
    {
        Position { line, character }
    }
}

impl Range {
    pub fn new(start: Position, end: Position) -> (r: Range)
        ensures
            r == (Range { start, end }),
    {
        Range { start, end }
    }
}

/// A range in the document with the given address.
#[derive(Debug, PartialEq, Eq)]
pub struct Location {
    pub uri: String,
    pub range: Range,
}

/// What a [`Location`] holds.
pub struct LocationView {
    pub uri: Seq<char>,
    pub range: Range,
}

impl View for Location {
    type V = LocationView;

    open spec fn view(&self) -> LocationView {
        LocationView { uri: self.uri@, range: self.range }
    }
}

/// The views of a list of locations.
pub open spec fn locations_view(v: Seq<Location>) -> Seq<LocationView> {
    v.map_values(|l: Location| l@)
}

/// The given ranges in the document at `uri`.
pub open spec fn located(uri: Seq<char>, ranges: Seq<Range>) -> Seq<LocationView> {
    ranges.map_values(|r: Range| LocationView { uri, range: r })
}

/// A text to be put in the place of a range.
#[derive(Debug, PartialEq, Eq)]
pub struct TextEdit {
    pub range: Range,
    pub new_text: String,
}

/// What a [`TextEdit`] holds.
pub struct TextEditView {
    pub range: Range,
    pub new_text: Seq<char>,
}

impl View for TextEdit {
    type V = TextEditView;

    open spec fn view(&self) -> TextEditView {
        TextEditView { range: self.range, new_text: self.new_text@ }
    }
}

/// The views of a list of edits.
pub open spec fn edits_view(v: Seq<TextEdit>) -> Seq<TextEditView> {
    v.map_values(|e: TextEdit| e@)
}

/// The address that `url::Url::parse` makes of a text: what it reads, written
/// out again in its normal form.
pub uninterp spec fn parsed_url(text: Seq<char>) -> Option<Seq<char>>;

/// Reads an address with `url::Url::parse` and writes it out again with
/// `Url::to_string`. The result depends on the text alone; of the address
/// nothing is said but its name.
#[verifier::external_body]
pub(crate) fn parse_url(text: &str) -> (r: Option<String>)
    ensures
        opt_view(r) == parsed_url(text@),
{
    tower_lsp::lsp_types::Url::parse(text).ok().map(|u| u.to_string())
}

/// Appends the given ranges in the document at `uri`.
pub(crate) fn push_located(out: &mut Vec<Location>, uri: &str, ranges: &Vec<Range>)
    ensures
        locations_view(final(out)@) == locations_view(old(out)@) + located(uri@, ranges@),
{
    let mut i: usize = 0;
    let ghost all = located(uri@, ranges@);
    assert(locations_view(out@) + all.take(0) =~= locations_view(out@));
    while i < ranges.len()
        invariant
            i <= ranges@.len(),
            all == located(uri@, ranges@),
            locations_view(out@) == locations_view(old(out)@) + all.take(i as int),
        decreases ranges@.len() - i,
    {
        let ghost before = locations_view(out@);
        out.push(Location { uri: uri.to_string(), range: ranges[i] });
        assert(locations_view(out@) =~= before.push(all[i as int]));
        assert(before.push(all[i as int]) =~= locations_view(old(out)@) + all.take(i + 1));
        i += 1;
    }
    assert(all.take(all.len() as int) =~= all);
}

/// The beginning of a document.
pub open spec fn origin() -> Range {
    Range {
        start: Position { line: 0, character: 0 },
        end: Position { line: 0, character: 0 },
    }
}

} // verus!
