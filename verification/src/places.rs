//! Places in a text: by line and UTF-16 column, as the protocol counts, and by
//! byte offset or by row and byte column, as syntax trees do.

use vstd::prelude::*;
use vstd::utf8::*;

use crate::lsp::Position;
use crate::lsp::Range;
use crate::syntax::Node;
use crate::syntax::NodeView;
use crate::syntax::Point;
use crate::text::chars;

verus! {

/// The number of UTF-16 units of a character.
pub open spec fn utf16_len(c: char) -> nat {
    if (c as u32) < 0x10000 {
        1
    } else {
        2
    }
}

/// The number of bytes of a character in UTF-8.
pub open spec fn utf8_len(c: char) -> nat {
    encode_scalar(c as u32).len()
}

/// The line and the column, in UTF-16 units, behind the first `n` characters.
pub open spec fn place_after(s: Seq<char>, n: int) -> (nat, nat)
    decreases n,
{
    if n <= 0 {
        (0, 0)
    } else {
        let (line, column) = place_after(s, n - 1);
        if s[n - 1] == '\n' {
            (line + 1, 0)
        } else {
            (line, column + utf16_len(s[n - 1]))
        }
    }
}

/// The column, in bytes, behind the first `n` characters.
pub open spec fn byte_column(s: Seq<char>, n: int) -> nat
    decreases n,
{
    if n <= 0 || s[n - 1] == '\n' {
        0
    } else {
        byte_column(s, n - 1) + utf8_len(s[n - 1])
    }
}

/// The byte offset behind the first `n` characters.
pub open spec fn offset_after(s: Seq<char>, n: int) -> nat
    decreases n,
{
    if n <= 0 {
        0
    } else {
        offset_after(s, n - 1) + utf8_len(s[n - 1])
    }
}

/// The place behind the first `n` characters, as syntax trees count.
pub open spec fn point_after(s: Seq<char>, n: int) -> Point {
    Point { row: place_after(s, n).0 as usize, column: byte_column(s, n) as usize }
}

/// The place behind the first `n` characters, in the protocol's numbers, of
/// which only the low 32 bits are left.
pub open spec fn position_after(s: Seq<char>, n: int) -> Position {
    let (line, column) = place_after(s, n);
    Position { line: line as u32, character: column as u32 }
}

/// The number of characters that end at or before the byte offset `byte`,
/// counted from `n` on.
pub open spec fn chars_from(s: Seq<char>, byte: usize, n: int) -> int
    decreases s.len() - n,
{
    if n >= s.len() || offset_after(s, n + 1) > byte {
        n
    } else {
        chars_from(s, byte, n + 1)
    }
}

/// The number of characters that end at or before the byte offset `byte`.
pub open spec fn chars_before(s: Seq<char>, byte: usize) -> int {
    chars_from(s, byte, 0)
}

/// The position of the byte offset `byte`: the line feeds before it, and the
/// UTF-16 units since the last of them.
pub open spec fn position_at(s: Seq<char>, byte: usize) -> Position {
    position_after(s, chars_before(s, byte))
}

/// Where a node of the tree of `source` lies.
pub open spec fn range_of(source: Seq<char>, n: NodeView) -> Range {
    Range { start: position_at(source, n.start_byte), end: position_at(source, n.end_byte) }
}

/// Whether one place comes before another.
pub open spec fn comes_before(a: (nat, nat), b: (nat, nat)) -> bool {
    a.0 < b.0 || (a.0 == b.0 && a.1 < b.1)
}

/// The number of characters whose ends do not lie behind `position`, counted
/// from `n` on.
pub open spec fn chars_upto_from(s: Seq<char>, position: Position, n: int) -> int
    decreases s.len() - n,
{
    if n >= s.len() || comes_before(
        (position.line as nat, position.character as nat),
        place_after(s, n + 1),
    ) {
        n
    } else {
        chars_upto_from(s, position, n + 1)
    }
}

/// The number of characters whose ends do not lie behind `position`. A column
/// behind the end of its line counts as that end.
pub open spec fn chars_upto(s: Seq<char>, position: Position) -> int {
    chars_upto_from(s, position, 0)
}

/// The place of a syntax tree that `position` names in `source`.
pub open spec fn point_of(source: Seq<char>, position: Position) -> Point {
    point_after(source, chars_upto(source, position))
}

proof fn lemma_encode_push(s: Seq<char>, c: char)
    ensures
        encode_utf8(s.push(c)) == encode_utf8(s) + encode_scalar(c as u32),
    decreases s.len(),
{
    if s.len() == 0 {
        reveal_with_fuel(encode_utf8, 2);
        assert(s.push(c).drop_first() =~= Seq::<char>::empty());
        assert(encode_utf8(s.push(c)) =~= encode_utf8(s) + encode_scalar(c as u32));
    } else {
        assert(s.push(c).drop_first() =~= s.drop_first().push(c));
        lemma_encode_push(s.drop_first(), c);
        assert(encode_utf8(s.push(c)) =~= encode_utf8(s) + encode_scalar(c as u32));
    }
}

/// The byte offset behind the first characters of a text is the length of
/// their encoding.
pub proof fn law_offsets_are_lengths(s: Seq<char>, n: int)
    requires
        0 <= n <= s.len(),
    ensures
        offset_after(s, n) == encode_utf8(s.take(n)).len(),
    decreases n,
{
    if n > 0 {
        law_offsets_are_lengths(s, n - 1);
        lemma_encode_push(s.take(n - 1), s[n - 1]);
        assert(s.take(n) =~= s.take(n - 1).push(s[n - 1]));
    }
}

/// Places come one after another.
pub proof fn lemma_places_increase(s: Seq<char>, n: int, m: int)
    requires
        0 <= n < m <= s.len(),
    ensures
        comes_before(place_after(s, n), place_after(s, m)),
    decreases m,
{
    if n < m - 1 {
        lemma_places_increase(s, n, m - 1);
    }
}

proof fn lemma_offsets_increase(s: Seq<char>, n: int, m: int)
    requires
        0 <= n < m <= s.len(),
    ensures
        offset_after(s, n) < offset_after(s, m),
    decreases m,
{
    if n < m - 1 {
        lemma_offsets_increase(s, n, m - 1);
    }
}

proof fn lemma_chars_from(s: Seq<char>, byte: usize, n: int, from: int)
    requires
        0 <= from <= n <= s.len(),
        offset_after(s, n) <= byte,
        n < s.len() ==> byte < offset_after(s, n + 1),
    ensures
        chars_from(s, byte, from) == n,
    decreases n - from,
{
    if from < n {
        if from + 1 < n {
            lemma_offsets_increase(s, from + 1, n);
        }
        lemma_chars_from(s, byte, n, from + 1);
    }
}

proof fn lemma_chars_upto_from(s: Seq<char>, position: Position, n: int, from: int)
    requires
        0 <= from <= n <= s.len(),
        place_after(s, n) == (position.line as nat, position.character as nat),
    ensures
        chars_upto_from(s, position, from) == n,
    decreases n - from,
{
    if from < n {
        if from + 1 < n {
            lemma_places_increase(s, from + 1, n);
        }
        lemma_chars_upto_from(s, position, n, from + 1);
    } else if n < s.len() {
        lemma_places_increase(s, n, n + 1);
    }
}

proof fn lemma_chars_from_bound(s: Seq<char>, byte: usize, n: int)
    requires
        0 <= n <= s.len(),
    ensures
        n <= chars_from(s, byte, n) <= s.len(),
    decreases s.len() - n,
{
    if n < s.len() && offset_after(s, n + 1) <= byte {
        lemma_chars_from_bound(s, byte, n + 1);
    }
}

/// Whether the place where a node begins is that of its byte offset.
pub open spec fn begins_at_offset(source: Seq<char>, n: NodeView) -> bool {
    n.start == point_after(source, chars_before(source, n.start_byte))
}

/// Where a node begins, turned into the protocol's numbers and back, is where
/// it begins, as far as those numbers reach.
pub proof fn law_positions_give_points_back(source: Seq<char>, n: NodeView)
    requires
        begins_at_offset(source, n),
        place_after(source, chars_before(source, n.start_byte)).0 <= u32::MAX,
        place_after(source, chars_before(source, n.start_byte)).1 <= u32::MAX,
    ensures
        point_of(source, range_of(source, n).start) == n.start,
{
    let k = chars_before(source, n.start_byte);
    lemma_chars_from_bound(source, n.start_byte, 0);
    lemma_chars_upto_from(source, range_of(source, n).start, k, 0);
}

/// A position behind the first characters of a text, turned into a place of
/// its tree, is where a node begins that begins there, and the node's range
/// begins at the position.
pub proof fn law_points_give_positions_back(
    source: Seq<char>,
    position: Position,
    k: int,
    n: NodeView,
)
    requires
        0 <= k <= source.len(),
        place_after(source, k) == (position.line as nat, position.character as nat),
        n.start_byte == offset_after(source, k),
        begins_at_offset(source, n),
    ensures
        point_of(source, position) == n.start,
        range_of(source, n).start == position,
{
    lemma_chars_upto_from(source, position, k, 0);
    if k < source.len() {
        lemma_offsets_increase(source, k, k + 1);
    }
    lemma_chars_from(source, n.start_byte, k, 0);
}

/// A place in a text, while it is walked through.
pub(crate) struct Walk {
    pub line: u128,
    pub column: u128,
    pub bytes: u128,
}

impl Walk {
    /// Whether this is the place behind the first `n` characters.
    pub(crate) open spec fn is_at(&self, s: Seq<char>, n: int) -> bool {
        &&& (self.line as nat, self.column as nat) == place_after(s, n)
        &&& self.bytes == byte_column(s, n)
        &&& self.line <= 4 * n
        &&& self.column <= 4 * n
        &&& self.bytes <= 4 * n
    }

    pub(crate) fn new() -> (r: Walk)
        ensures
            forall|s: Seq<char>| r.is_at(s, 0),
    {
        Walk { line: 0, column: 0, bytes: 0 }
    }

    /// Goes past the character at place `n`.
    pub(crate) fn pass(&mut self, s: &Vec<char>, n: usize)
        requires
            n < s@.len(),
            old(self).is_at(s@, n as int),
        ensures
            final(self).is_at(s@, n + 1),
    {
        let c = s[n];
        if c == '\n' {
            self.line = self.line + 1;
            self.column = 0;
            self.bytes = 0;
        } else {
            self.column = self.column + if (c as u32) < 0x10000 {
                1
            } else {
                2
            };
            self.bytes = self.bytes + byte_len(c) as u128;
        }
    }

    /// This place in the protocol's numbers.
    pub(crate) fn position(&self) -> (r: Position)
        ensures
            forall|s: Seq<char>, n: int| self.is_at(s, n) ==> r == #[trigger] position_after(s, n),
    {
        #[verifier::truncate]
        let line = self.line as u32;
        #[verifier::truncate]
        let character = self.column as u32;
        Position { line, character }
    }
}

/// The number of bytes of a character in UTF-8.
fn byte_len(c: char) -> (r: usize)
    ensures
        r == utf8_len(c),
        1 <= r <= 4,
{
    let u = c as u32;
    if u < 0x80 {
        1
    } else if u < 0x800 {
        2
    } else if u < 0x10000 {
        3
    } else {
        4
    }
}

/// The place of the syntax tree of `source` that `position` names.
pub fn to_point(source: &str, position: Position) -> (r: Point)
    ensures
        r == point_of(source@, position),
{
    let s = chars(source);
    let mut at = Walk::new();
    let mut n: usize = 0;
    while n < s.len()
        invariant
            n <= s@.len(),
            at.is_at(s@, n as int),
            chars_upto(s@, position) == chars_upto_from(s@, position, n as int),
            s@ == source@,
        decreases s@.len() - n,
    {
        let mut next = Walk { line: at.line, column: at.column, bytes: at.bytes };
        next.pass(&s, n);
        let line = position.line as u128;
        if line < next.line || (line == next.line && (position.character as u128) < next.column) {
            #[verifier::truncate]
            let row = at.line as usize;
            #[verifier::truncate]
            let column = at.bytes as usize;
            return Point { row, column };
        }
        at = next;
        n += 1;
    }
    #[verifier::truncate]
    let row = at.line as usize;
    #[verifier::truncate]
    let column = at.bytes as usize;
    Point { row, column }
}

/// The positions of all byte offsets of a text.
pub(crate) struct Places {
    pub at: Vec<Position>,
}

impl Places {
    /// Whether these are the positions of `s`.
    pub(crate) open spec fn are_of(&self, s: Seq<char>) -> bool {
        &&& self.at@.len() == offset_after(s, s.len() as int) + 1
        &&& forall|b: usize| b < self.at@.len() ==> #[trigger] self.at@[b as int] == position_at(s, b)
    }

    /// The positions of all byte offsets of `source`.
    pub(crate) fn of(source: &str) -> (r: Places)
        ensures
            r.are_of(source@),
    {
        let s = chars(source);
        let mut out: Vec<Position> = Vec::new();
        let mut walk = Walk::new();
        let mut n: usize = 0;
        while n < s.len()
            invariant
                n <= s@.len(),
                walk.is_at(s@, n as int),
                out@.len() == offset_after(s@, n as int),
                forall|b: usize|
                    b < out@.len() ==> #[trigger] out@[b as int] == position_at(s@, b),
            decreases s@.len() - n,
        {
            let here = walk.position();
            let width = byte_len(s[n]);
            let mut k: usize = 0;
            while k < width
                invariant
                    k <= width,
                    n < s@.len(),
                    width == utf8_len(s@[n as int]),
                    here == position_after(s@, n as int),
                    out@.len() == offset_after(s@, n as int) + k,
                    forall|b: usize|
                        b < out@.len() ==> #[trigger] out@[b as int] == position_at(s@, b),
                decreases width - k,
            {
                proof {
                    assert(out.len() == out@.len());
                    lemma_chars_from(s@, out@.len() as usize, n as int, 0);
                }
                out.push(here);
                k += 1;
            }
            walk.pass(&s, n);
            n += 1;
        }
        proof {
            assert(out.len() == out@.len());
            lemma_chars_from(s@, out@.len() as usize, n as int, 0);
        }
        out.push(walk.position());
        Places { at: out }
    }

    /// The position of a byte offset.
    fn position(&self, byte: usize, Ghost(s): Ghost<Seq<char>>) -> (r: Position)
        requires
            self.are_of(s),
        ensures
            r == position_at(s, byte),
    {
        let n = self.at.len();
        if byte < n {
            self.at[byte]
        } else {
            proof {
                lemma_chars_from(s, byte, s.len() as int, 0);
                lemma_chars_from(s, (n - 1) as usize, s.len() as int, 0);
            }
            self.at[n - 1]
        }
    }

    /// Where a node lies.
    pub(crate) fn range(&self, node: &Node, Ghost(s): Ghost<Seq<char>>) -> (r: Range)
        requires
            self.are_of(s),
        ensures
            r == range_of(s, node@),
    {
        Range {
            start: self.position(node.start_byte, Ghost(s)),
            end: self.position(node.end_byte, Ghost(s)),
        }
    }
}

/// Where a node of the tree of `source` lies.
pub fn node_to_lsp_range(source: &str, node: &Node) -> (r: Range)
    ensures
        r == range_of(source@, node@),
{
    let places = Places::of(source);
    places.range(node, Ghost(source@))
}

/// The UTF-16 units of a character: two above U+FFFF, else one.
pub open spec fn units(s: Seq<char>, a: int, b: int) -> int
    decreases b - a,
{
    if b <= a {
        0
    } else {
        units(s, a, b - 1) + (if (s[b - 1] as u32) <= 0xffff {
            1int
        } else {
            2int
        })
    }
}

/// The number of line feeds among the first `n` characters.
pub open spec fn feeds(s: Seq<char>, n: int) -> int
    decreases n,
{
    if n <= 0 {
        0
    } else {
        feeds(s, n - 1) + (if s[n - 1] == '\n' {
            1int
        } else {
            0int
        })
    }
}

proof fn lemma_place(s: Seq<char>, a: int, n: int)
    requires
        0 <= a <= n <= s.len(),
        a == 0 || s[a - 1] == '\n',
        forall|i: int| a <= i < n ==> #[trigger] s[i] != '\n',
    ensures
        place_after(s, n).0 == feeds(s, n),
        place_after(s, n).1 == units(s, a, n),
        byte_column(s, n) == offset_after(s, n) - offset_after(s, a),
    decreases n,
{
    if a < n {
        lemma_place(s, a, n - 1);
    } else if n > 0 {
        let b = lemma_line_start(s, n - 1);
        lemma_place(s, b, n - 1);
    }
}

proof fn lemma_line_start(s: Seq<char>, n: int) -> (a: int)
    requires
        0 <= n <= s.len(),
    ensures
        0 <= a <= n,
        a == 0 || s[a - 1] == '\n',
        forall|i: int| a <= i < n ==> #[trigger] s[i] != '\n',
    decreases n,
{
    if n == 0 || s[n - 1] == '\n' {
        n
    } else {
        lemma_line_start(s, n - 1)
    }
}

/// The position of a byte offset behind the first `n` characters, of which the
/// last line begins behind the first `a`: the line feeds before it, and the
/// UTF-16 units of that line before it. The tree counts the same line feeds, and
/// the bytes of that line.
pub proof fn law_positions_count(s: Seq<char>, a: int, n: int, byte: usize, position: Position)
    requires
        0 <= a <= n <= s.len(),
        a == 0 || s[a - 1] == '\n',
        forall|i: int| a <= i < n ==> #[trigger] s[i] != '\n',
        byte == encode_utf8(s.take(n)).len(),
        feeds(s, n) <= u32::MAX,
        units(s, a, n) <= u32::MAX,
        encode_utf8(s).len() <= usize::MAX,
    ensures
        position_at(s, byte) == (Position {
            line: feeds(s, n) as u32,
            character: units(s, a, n) as u32,
        }),
        position.line == feeds(s, n) && position.character == units(s, a, n) ==> point_of(
            s,
            position,
        ) == (Point {
            row: feeds(s, n) as usize,
            column: (encode_utf8(s.take(n)).len() - encode_utf8(s.take(a)).len()) as usize,
        }),
{
    law_offsets_are_lengths(s, n);
    law_offsets_are_lengths(s, a);
    lemma_place(s, a, n);
    if n < s.len() {
        lemma_offsets_increase(s, n, n + 1);
    }
    lemma_chars_from(s, byte, n, 0);
    if position.line == feeds(s, n) && position.character == units(s, a, n) {
        lemma_chars_upto_from(s, position, n, 0);
    }
}

/// A column behind the end of its line names that end.
pub proof fn law_columns_end_with_the_line(s: Seq<char>, a: int, n: int, position: Position)
    requires
        0 <= a <= n <= s.len(),
        a == 0 || s[a - 1] == '\n',
        forall|i: int| a <= i < n ==> #[trigger] s[i] != '\n',
        n == s.len() || s[n] == '\n',
        position.line == feeds(s, n),
        position.character >= units(s, a, n),
    ensures
        chars_upto(s, position) == n,
{
    lemma_place(s, a, n);
    lemma_chars_upto_end(s, position, n, 0);
}

proof fn lemma_chars_upto_end(s: Seq<char>, position: Position, n: int, from: int)
    requires
        0 <= from <= n <= s.len(),
        n == s.len() || s[n] == '\n',
        place_after(s, n).0 == position.line,
        place_after(s, n).1 <= position.character,
    ensures
        chars_upto_from(s, position, from) == n,
    decreases n - from,
{
    if from < n {
        if from + 1 < n {
            lemma_places_increase(s, from + 1, n);
        }
        lemma_chars_upto_end(s, position, n, from + 1);
    }
}

} // verus!
