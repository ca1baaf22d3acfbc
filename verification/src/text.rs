//! Text as sequences of characters: trimming, searching, splitting, joining.
//!
//! Strings are taken apart once into characters and put together once at the
//! end; what happens in between works on slices.

use vstd::prelude::*;
use vstd::slice::slice_subrange;
use vstd::string::*;
use vstd::utf8::*;

use crate::text_facts::lemma_pieces;
use crate::text_facts::lemma_texts_push;

verus! {

/// `String::push`: appends one character.
pub assume_specification[ String::push ](s: &mut String, c: char)
    ensures
        final(s)@ == old(s)@.push(c),
;

/// The characters with the Unicode property `White_Space`.
pub open spec fn is_space(c: char) -> bool {
    ||| '\u{9}' <= c <= '\u{d}'
    ||| c == ' '
    ||| c == '\u{85}'
    ||| c == '\u{a0}'
    ||| c == '\u{1680}'
    ||| '\u{2000}' <= c <= '\u{200a}'
    ||| c == '\u{2028}'
    ||| c == '\u{2029}'
    ||| c == '\u{202f}'
    ||| c == '\u{205f}'
    ||| c == '\u{3000}'
}

/// A set of characters that a text is trimmed of or searched for.
#[derive(Clone, Copy)]
pub enum Class {
    /// White space.
    Space,
    /// One character.
    Only(char),
    /// A colon or white space.
    ColonOrSpace,
}

impl Class {
    pub open spec fn has(self, c: char) -> bool {
        match self {
            Class::Space => is_space(c),
            Class::Only(x) => c == x,
            Class::ColonOrSpace => c == ':' || is_space(c),
        }
    }

    pub fn holds(self, c: char) -> (r: bool)
        ensures
            r == self.has(c),
    {
        match self {
            Class::Space => is_whitespace(c),
            Class::Only(x) => c == x,
            Class::ColonOrSpace => c == ':' || is_whitespace(c),
        }
    }
}

/// Whether `c` is white space.
pub fn is_whitespace(c: char) -> (r: bool)
    ensures
        r == is_space(c),
{
    ('\u{9}' <= c && c <= '\u{d}') || c == ' ' || c == '\u{85}' || c == '\u{a0}' || c == '\u{1680}'
        || ('\u{2000}' <= c && c <= '\u{200a}') || c == '\u{2028}' || c == '\u{2029}' || c
        == '\u{202f}' || c == '\u{205f}' || c == '\u{3000}'
}

/// `s` without its leading characters of class `k`.
pub open spec fn trimmed_start(s: Seq<char>, k: Class) -> Seq<char>
    decreases s.len(),
{
    if s.len() > 0 && k.has(s[0]) {
        trimmed_start(s.drop_first(), k)
    } else {
        s
    }
}

/// `s` without its trailing characters of class `k`.
pub open spec fn trimmed_end(s: Seq<char>, k: Class) -> Seq<char>
    decreases s.len(),
{
    if s.len() > 0 && k.has(s.last()) {
        trimmed_end(s.drop_last(), k)
    } else {
        s
    }
}

/// `s` without the characters of class `k` at either end.
pub open spec fn trimmed_of(s: Seq<char>, k: Class) -> Seq<char> {
    trimmed_end(trimmed_start(s, k), k)
}

/// `s` without white space at either end.
pub open spec fn trimmed(s: Seq<char>) -> Seq<char> {
    trimmed_of(s, Class::Space)
}

/// The position of the first character of class `k`, or the length of `s`.
pub open spec fn first_of(s: Seq<char>, k: Class) -> int
    decreases s.len(),
{
    if s.len() == 0 || k.has(s[0]) {
        0
    } else {
        1 + first_of(s.drop_first(), k)
    }
}

/// The position at which `part` first occurs in `s`, if it does.
pub open spec fn position_of(s: Seq<char>, part: Seq<char>) -> Option<int>
    decreases s.len(),
{
    if part.is_prefix_of(s) {
        Some(0)
    } else if s.len() == 0 {
        None
    } else {
        match position_of(s.drop_first(), part) {
            Some(i) => Some(i + 1),
            None => None,
        }
    }
}

/// The pieces of `s` between its occurrences of `c`; always at least one.
pub open spec fn pieces(s: Seq<char>, c: char) -> Seq<Seq<char>>
    decreases s.len(),
{
    let i = first_of(s, Class::Only(c));
    if 0 <= i < s.len() {
        seq![s.take(i)] + pieces(s.skip(i + 1), c)
    } else {
        seq![s]
    }
}

/// The lines of `s`: its pieces between line feeds, without an empty last one.
pub open spec fn lines_of(s: Seq<char>) -> Seq<Seq<char>> {
    let p = pieces(s, '\n');
    if p.last().len() == 0 {
        p.drop_last()
    } else {
        p
    }
}

/// `parts` one after another with `sep` between neighbours.
pub open spec fn joined(parts: Seq<Seq<char>>, sep: Seq<char>) -> Seq<char>
    decreases parts.len(),
{
    if parts.len() == 0 {
        seq![]
    } else if parts.len() == 1 {
        parts[0]
    } else {
        joined(parts.drop_last(), sep) + sep + parts.last()
    }
}

/// `lines` without the empty ones at its start.
pub open spec fn without_head(lines: Seq<Seq<char>>) -> Seq<Seq<char>>
    decreases lines.len(),
{
    if lines.len() > 0 && lines[0].len() == 0 {
        without_head(lines.drop_first())
    } else {
        lines
    }
}

/// `lines` without the empty ones at its end.
pub open spec fn without_tail(lines: Seq<Seq<char>>) -> Seq<Seq<char>>
    decreases lines.len(),
{
    if lines.len() > 0 && lines.last().len() == 0 {
        without_tail(lines.drop_last())
    } else {
        lines
    }
}

/// The views of a vector of texts.
pub open spec fn texts(v: Seq<Vec<char>>) -> Seq<Seq<char>> {
    v.map_values(|t: Vec<char>| t@)
}

/// The views of a vector of strings.
pub open spec fn strings(v: Seq<String>) -> Seq<Seq<char>> {
    v.map_values(|t: String| t@)
}

/// The view of an optional string.
pub open spec fn opt_view(s: Option<String>) -> Option<Seq<char>> {
    match s {
        Some(t) => Some(t@),
        None => None,
    }
}

/// The characters of `s`.
pub fn chars(s: &str) -> (r: Vec<char>)
    ensures
        r@ == s@,
{
    let mut out: Vec<char> = Vec::new();
    for c in it: s.chars()
        invariant
            out@ == it.seq().take(it.index()),
            it.seq() == s@,
    {
        out.push(c);
    }
    assert(s@.take(s@.len() as int) =~= s@);
    out
}

/// The string with the characters `s`.
pub fn string(s: &[char]) -> (r: String)
    ensures
        r@ == s@,
{
    let mut out = String::new();
    let mut i: usize = 0;
    while i < s.len()
        invariant
            i <= s.len(),
            out@ == s@.take(i as int),
        decreases s.len() - i,
    {
        out.push(s[i]);
        i += 1;
        assert(s@.take(i as int) =~= s@.take(i - 1).push(s@[i - 1]));
    }
    assert(s@.take(s@.len() as int) =~= s@);
    out
}

/// Appends `s` to `out`.
pub fn push_chars(out: &mut Vec<char>, s: &[char])
    ensures
        final(out)@ == old(out)@ + s@,
{
    let mut i: usize = 0;
    while i < s.len()
        invariant
            i <= s.len(),
            out@ == old(out)@ + s@.take(i as int),
        decreases s.len() - i,
    {
        out.push(s[i]);
        i += 1;
        assert(old(out)@ + s@.take(i as int) =~= (old(out)@ + s@.take(i - 1)).push(s@[i - 1]));
    }
    assert(s@.take(s@.len() as int) =~= s@);
}

/// Appends the characters of `s` to `out`.
pub fn push_text(out: &mut Vec<char>, s: &str)
    ensures
        final(out)@ == old(out)@ + s@,
{
    let t = chars(s);
    push_chars(out, &t);
}

/// A copy of `s`.
pub fn copy(s: &[char]) -> (r: Vec<char>)
    ensures
        r@ == s@,
{
    vstd::slice::slice_to_vec(s)
}

/// Whether two texts are equal.
pub fn same(a: &[char], b: &[char]) -> (r: bool)
    ensures
        r == (a@ == b@),
{
    if a.len() != b.len() {
        return false;
    }
    let mut i: usize = 0;
    while i < a.len()
        invariant
            i <= a.len(),
            a.len() == b.len(),
            a@.take(i as int) == b@.take(i as int),
        decreases a.len() - i,
    {
        if a[i] != b[i] {
            return false;
        }
        i += 1;
        assert(a@.take(i as int) =~= a@.take(i - 1).push(a@[i - 1]));
        assert(b@.take(i as int) =~= b@.take(i - 1).push(b@[i - 1]));
    }
    assert(a@.take(a@.len() as int) =~= a@);
    assert(b@.take(b@.len() as int) =~= b@);
    true
}

/// Whether two strings are equal.
pub fn same_str(a: &str, b: &str) -> (r: bool)
    ensures
        r == (a@ == b@),
{
    let x = a.as_bytes();
    let y = b.as_bytes();
    proof {
        encode_utf8_decode_utf8(a@);
        encode_utf8_decode_utf8(b@);
    }
    if x.len() != y.len() {
        return false;
    }
    let mut i: usize = 0;
    while i < x.len()
        invariant
            i <= x.len(),
            x.len() == y.len(),
            x@ == encode_utf8(a@),
            y@ == encode_utf8(b@),
            forall|k: int| 0 <= k < i ==> x@[k] == y@[k],
        decreases x.len() - i,
    {
        if x[i] != y[i] {
            return false;
        }
        i += 1;
    }
    assert(x@ =~= y@);
    true
}

/// Whether `s` is one of `words`.
pub fn is_one_of(s: &str, words: &[&str]) -> (r: bool)
    ensures
        r == exists|i: int| 0 <= i < words@.len() && (#[trigger] words@[i])@ == s@,
{
    let mut i: usize = 0;
    while i < words.len()
        invariant
            i <= words.len(),
            forall|k: int| 0 <= k < i ==> (#[trigger] words@[k])@ != s@,
        decreases words.len() - i,
    {
        if same_str(words[i], s) {
            return true;
        }
        i += 1;
    }
    false
}

/// Whether `s` begins with `part`.
pub fn starts_with(s: &[char], part: &[char]) -> (r: bool)
    ensures
        r == part@.is_prefix_of(s@),
{
    if part.len() > s.len() {
        return false;
    }
    let head = slice_subrange(s, 0, part.len());
    same(head, part)
}

/// `s` without the leading `part`, if it begins with it.
pub fn strip_prefix<'a>(s: &'a [char], part: &str) -> (r: Option<&'a [char]>)
    ensures
        match r {
            Some(t) => part@.is_prefix_of(s@) && t@ == s@.skip(part@.len() as int),
            None => !part@.is_prefix_of(s@),
        },
{
    let p = chars(part);
    if starts_with(s, &p) {
        Some(slice_subrange(s, p.len(), s.len()))
    } else {
        None
    }
}

/// `s` without the trailing `part`, if it ends with it.
pub fn strip_suffix<'a>(s: &'a [char], part: &str) -> (r: Option<&'a [char]>)
    ensures
        match r {
            Some(t) => part@.is_suffix_of(s@) && t@ == s@.take(s@.len() - part@.len()),
            None => !part@.is_suffix_of(s@),
        },
{
    let p = chars(part);
    if p.len() > s.len() {
        return None;
    }
    let tail = slice_subrange(s, s.len() - p.len(), s.len());
    if same(tail, &p) {
        Some(slice_subrange(s, 0, s.len() - p.len()))
    } else {
        None
    }
}

/// Drops the leading characters of class `k`.
pub fn trim_start(s: &[char], k: Class) -> (r: &[char])
    ensures
        r@ == trimmed_start(s@, k),
{
    let mut i: usize = 0;
    assert(s@.skip(0) =~= s@);
    while i < s.len() && k.holds(s[i])
        invariant
            i <= s.len(),
            trimmed_start(s@, k) == trimmed_start(s@.skip(i as int), k),
        decreases s.len() - i,
    {
        assert(s@.skip(i as int).drop_first() =~= s@.skip(i + 1));
        i += 1;
    }
    slice_subrange(s, i, s.len())
}

/// Drops the trailing characters of class `k`.
pub fn trim_end(s: &[char], k: Class) -> (r: &[char])
    ensures
        r@ == trimmed_end(s@, k),
{
    let mut n: usize = s.len();
    assert(s@.take(s@.len() as int) =~= s@);
    while n > 0 && k.holds(s[n - 1])
        invariant
            n <= s.len(),
            trimmed_end(s@, k) == trimmed_end(s@.take(n as int), k),
        decreases n,
    {
        assert(s@.take(n as int).drop_last() =~= s@.take(n - 1));
        n -= 1;
    }
    slice_subrange(s, 0, n)
}

/// Drops the characters of class `k` at either end.
pub fn trim_of(s: &[char], k: Class) -> (r: &[char])
    ensures
        r@ == trimmed_of(s@, k),
{
    trim_end(trim_start(s, k), k)
}

/// Drops white space at either end.
pub fn trim(s: &[char]) -> (r: &[char])
    ensures
        r@ == trimmed(s@),
{
    trim_of(s, Class::Space)
}

/// The position of the first character of class `k`, or the length of `s`.
pub fn find(s: &[char], k: Class) -> (r: usize)
    ensures
        r == first_of(s@, k),
        r <= s.len(),
{
    let mut i: usize = 0;
    assert(s@.skip(0) =~= s@);
    while i < s.len() && !k.holds(s[i])
        invariant
            i <= s.len(),
            first_of(s@, k) == i + first_of(s@.skip(i as int), k),
        decreases s.len() - i,
    {
        assert(s@.skip(i as int).drop_first() =~= s@.skip(i + 1));
        i += 1;
    }
    i
}

/// The position at which `part` first occurs in `s`.
pub fn find_text(s: &[char], part: &str) -> (r: Option<usize>)
    ensures
        match r {
            Some(i) => position_of(s@, part@) == Some(i as int) && i + part@.len() <= s.len(),
            None => position_of(s@, part@) is None,
        },
{
    let p = chars(part);
    let mut i: usize = 0;
    assert(s@.skip(0) =~= s@);
    loop
        invariant
            i <= s.len(),
            p@ == part@,
            position_of(s@, part@) == (match position_of(s@.skip(i as int), part@) {
                Some(j) => Some(i + j),
                None => None,
            }),
        decreases s.len() - i,
    {
        if starts_with(slice_subrange(s, i, s.len()), &p) {
            return Some(i);
        }
        if i == s.len() {
            return None;
        }
        assert(s@.skip(i as int).drop_first() =~= s@.skip(i + 1));
        i += 1;
    }
}

/// The pieces of `s` between line feeds.
pub fn split_lines(s: &[char]) -> (r: Vec<&[char]>)
    ensures
        r@.map_values(|t: &[char]| t@) =~= pieces(s@, '\n'),
{
    let mut out: Vec<&[char]> = Vec::new();
    let mut start: usize = 0;
    assert(s@.skip(0) =~= s@);
    assert(out@.map_values(|t: &[char]| t@) + pieces(s@.skip(0), '\n') =~= pieces(s@, '\n'));
    loop
        invariant
            start <= s.len(),
            out@.map_values(|t: &[char]| t@) + pieces(s@.skip(start as int), '\n') == pieces(
                s@,
                '\n',
            ),
        decreases s.len() - start,
    {
        let rest = slice_subrange(s, start, s.len());
        assert(rest@ =~= s@.skip(start as int));
        let n = find(rest, Class::Only('\n'));
        let ghost before = out@.map_values(|t: &[char]| t@);
        if n == rest.len() {
            out.push(rest);
            assert(out@.map_values(|t: &[char]| t@) =~= before.push(rest@));
            assert(before.push(rest@) =~= before + seq![rest@]);
            return out;
        }
        let piece = slice_subrange(rest, 0, n);
        out.push(piece);
        assert(out@.map_values(|t: &[char]| t@) =~= before.push(piece@));
        assert(piece@ =~= rest@.take(n as int));
        assert(rest@.skip(n + 1) =~= s@.skip(start + n + 1));
        assert(before.push(piece@) + pieces(s@.skip(start + n + 1), '\n') =~= before + (seq![
            piece@,
        ] + pieces(s@.skip(start + n + 1), '\n')));
        start = start + n + 1;
    }
}

/// The lines of `s`.
pub fn lines(s: &[char]) -> (r: Vec<&[char]>)
    ensures
        r@.map_values(|t: &[char]| t@) =~= lines_of(s@),
{
    let mut out = split_lines(s);
    let ghost cut = out@.map_values(|t: &[char]| t@);
    let n = out.len();
    proof {
        lemma_pieces(s@, '\n');
        assert(cut.last() == out@[n - 1]@);
    }
    if out[n - 1].len() == 0 {
        let _ = out.pop();
        assert(out@.map_values(|t: &[char]| t@) =~= cut.drop_last());
    }
    out
}

/// The texts without the empty ones at either end.
pub fn drop_empty(all: &Vec<Vec<char>>) -> (r: Vec<Vec<char>>)
    ensures
        texts(r@) == without_tail(without_head(texts(all@))),
{
    let ghost lines = texts(all@);
    let n = all.len();
    let mut from: usize = 0;
    assert(lines.skip(0) =~= lines);
    while from < n && all[from].len() == 0
        invariant
            from <= n == all@.len(),
            lines == texts(all@),
            without_head(lines.skip(from as int)) == without_head(lines),
        decreases n - from,
    {
        assert(lines.skip(from as int)[0] == all@[from as int]@);
        assert(lines.skip(from as int).drop_first() =~= lines.skip(from + 1));
        from += 1;
    }
    let ghost kept = lines.skip(from as int);
    proof {
        if from < n {
            assert(kept[0] == all@[from as int]@);
        }
        assert(kept == without_head(lines));
    }
    let mut to: usize = n;
    assert(kept.take(kept.len() as int) =~= kept);
    while to > from && all[to - 1].len() == 0
        invariant
            from <= to <= n == all@.len(),
            lines == texts(all@),
            kept == lines.skip(from as int),
            without_tail(kept.take(to - from)) == without_tail(kept),
        decreases to,
    {
        assert(kept.take(to - from).last() == all@[to - 1]@);
        assert(kept.take(to - from).drop_last() =~= kept.take(to - 1 - from));
        to -= 1;
    }
    let ghost left = kept.take(to - from);
    proof {
        if to > from {
            assert(left.last() == all@[to - 1]@);
        }
        assert(left == without_tail(kept));
    }
    let mut out: Vec<Vec<char>> = Vec::new();
    let mut j: usize = from;
    assert(texts(out@) =~= left.take(0));
    while j < to
        invariant
            from <= j <= to <= n == all@.len(),
            left.len() == to - from,
            forall|k: int| 0 <= k < left.len() ==> #[trigger] left[k] == all@[from + k]@,
            texts(out@) == left.take(j - from),
        decreases to - j,
    {
        let line = copy(&all[j]);
        assert(left[j - from] == line@);
        proof {
            lemma_texts_push(out@, line);
            assert(left.take(j - from).push(line@) =~= left.take(j + 1 - from));
        }
        out.push(line);
        j += 1;
    }
    assert(left.take(left.len() as int) =~= left);
    out
}

/// The parts one after another with `sep` between neighbours.
pub fn join(parts: &Vec<Vec<char>>, sep: &str) -> (r: Vec<char>)
    ensures
        r@ == joined(texts(parts@), sep@),
{
    let mut out: Vec<char> = Vec::new();
    let mut i: usize = 0;
    assert(texts(parts@).take(0) =~= seq![]);
    while i < parts.len()
        invariant
            i <= parts.len(),
            out@ == joined(texts(parts@).take(i as int), sep@),
        decreases parts.len() - i,
    {
        if i > 0 {
            push_text(&mut out, sep);
        }
        push_chars(&mut out, &parts[i]);
        i += 1;
        assert(texts(parts@).take(i as int).drop_last() =~= texts(parts@).take(i - 1));
        assert(texts(parts@).take(i as int).last() == parts@[i - 1]@);
        if i == 1 {
            assert(out@ =~= parts@[0]@);
        }
    }
    assert(texts(parts@).take(parts@.len() as int) =~= texts(parts@));
    out
}

} // verus!
