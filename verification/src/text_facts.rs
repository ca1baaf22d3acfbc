//! Facts on trimming, splitting and joining texts.

use vstd::prelude::*;

use crate::text::first_of;
use crate::text::joined;
use crate::text::lines_of;
use crate::text::pieces;
use crate::text::position_of;
use crate::text::texts;
use crate::text::trimmed_end;
use crate::text::trimmed_of;
use crate::text::trimmed_start;
use crate::text::Class;

verus! {

/// What is left after trimming the start is a tail of the text that begins
/// outside the class.
pub proof fn lemma_trimmed_start(s: Seq<char>, k: Class)
    ensures
        trimmed_start(s, k).len() <= s.len(),
        trimmed_start(s, k) == s.skip(s.len() - trimmed_start(s, k).len()),
        trimmed_start(s, k).len() > 0 ==> !k.has(trimmed_start(s, k)[0]),
    decreases s.len(),
{
    if s.len() > 0 && k.has(s[0]) {
        lemma_trimmed_start(s.drop_first(), k);
        let t = trimmed_start(s, k);
        assert(s.drop_first().skip(s.drop_first().len() - t.len()) =~= s.skip(s.len() - t.len()));
    } else {
        assert(s.skip(0) =~= s);
    }
}

/// What is left after trimming the end is a head of the text that ends outside
/// the class.
pub proof fn lemma_trimmed_end(s: Seq<char>, k: Class)
    ensures
        trimmed_end(s, k).len() <= s.len(),
        trimmed_end(s, k) == s.take(trimmed_end(s, k).len() as int),
        trimmed_end(s, k).len() > 0 ==> !k.has(trimmed_end(s, k).last()),
    decreases s.len(),
{
    if s.len() > 0 && k.has(s.last()) {
        lemma_trimmed_end(s.drop_last(), k);
        let t = trimmed_end(s, k);
        assert(s.drop_last().take(t.len() as int) =~= s.take(t.len() as int));
    } else {
        assert(s.take(s.len() as int) =~= s);
    }
}

/// A trimmed text has no character of the class at either end, and is part of
/// the text.
pub proof fn lemma_trimmed_of(s: Seq<char>, k: Class)
    ensures
        trimmed_of(s, k).len() > 0 ==> !k.has(trimmed_of(s, k)[0]) && !k.has(trimmed_of(s, k).last()),
        forall|c: char| #[trigger] trimmed_of(s, k).contains(c) ==> s.contains(c),
{
    let t = trimmed_start(s, k);
    let u = trimmed_of(s, k);
    lemma_trimmed_start(s, k);
    lemma_trimmed_end(t, k);
    assert forall|c: char| #[trigger] u.contains(c) implies s.contains(c) by {
        let i = choose|i: int| 0 <= i < u.len() && u[i] == c;
        assert(s[s.len() - t.len() + i] == c);
    }
}

/// Characters of the class in front do not matter.
pub proof fn lemma_trimmed_start_of(a: Seq<char>, s: Seq<char>, k: Class)
    requires
        forall|i: int| 0 <= i < a.len() ==> k.has(#[trigger] a[i]),
    ensures
        trimmed_start(a + s, k) == trimmed_start(s, k),
    decreases a.len(),
{
    if a.len() == 0 {
        assert(a + s =~= s);
    } else {
        assert((a + s).drop_first() =~= a.drop_first() + s);
        assert((a + s)[0] == a[0]);
        lemma_trimmed_start_of(a.drop_first(), s, k);
    }
}

/// What a character behind a text does when the start is trimmed.
pub proof fn lemma_trimmed_start_push(s: Seq<char>, c: char, k: Class)
    requires
        k.has(c),
    ensures
        trimmed_start(s.push(c), k) == (if trimmed_start(s, k).len() == 0 {
            Seq::<char>::empty()
        } else {
            trimmed_start(s, k).push(c)
        }),
    decreases s.len(),
{
    if s.len() == 0 {
        reveal_with_fuel(trimmed_start, 2);
        assert(s.push(c).drop_first() =~= Seq::<char>::empty());
    } else {
        assert(s.push(c)[0] == s[0]);
        if k.has(s[0]) {
            assert(s.push(c).drop_first() =~= s.drop_first().push(c));
            lemma_trimmed_start_push(s.drop_first(), c, k);
        }
    }
}

/// A character of the class behind a text does not matter.
pub proof fn lemma_trimmed_push(s: Seq<char>, c: char, k: Class)
    requires
        k.has(c),
    ensures
        trimmed_of(s.push(c), k) == trimmed_of(s, k),
{
    lemma_trimmed_start_push(s, c, k);
    let t = trimmed_start(s, k);
    if t.len() > 0 {
        assert(t.push(c).drop_last() =~= t);
    }
}

/// Characters of the class around a trimmed text do not matter.
pub proof fn lemma_trimmed_again(a: Seq<char>, s: Seq<char>, k: Class)
    requires
        forall|i: int| 0 <= i < a.len() ==> k.has(#[trigger] a[i]),
    ensures
        trimmed_of(a + trimmed_of(s, k), k) == trimmed_of(s, k),
{
    lemma_trimmed_start_of(a, trimmed_of(s, k), k);
    lemma_trimmed_of(s, k);
}

/// Where the first character of a class stands.
pub proof fn lemma_first_of(s: Seq<char>, k: Class, n: int)
    requires
        0 <= n <= s.len(),
        forall|i: int| 0 <= i < n ==> !k.has(#[trigger] s[i]),
        n < s.len() ==> k.has(s[n]),
    ensures
        first_of(s, k) == n,
    decreases s.len(),
{
    if n > 0 {
        assert(!k.has(s[0]));
        assert forall|i: int| 0 <= i < n - 1 implies !k.has(#[trigger] s.drop_first()[i]) by {
            assert(!k.has(s[i + 1]));
        }
        lemma_first_of(s.drop_first(), k, n - 1);
    }
}

/// What [`first_of`] finds.
pub proof fn lemma_first_of_is(s: Seq<char>, k: Class)
    ensures
        0 <= first_of(s, k) <= s.len(),
        forall|i: int| 0 <= i < first_of(s, k) ==> !k.has(#[trigger] s[i]),
        first_of(s, k) < s.len() ==> k.has(s[first_of(s, k)]),
    decreases s.len(),
{
    if s.len() > 0 && !k.has(s[0]) {
        lemma_first_of_is(s.drop_first(), k);
        assert forall|i: int| 0 <= i < first_of(s, k) implies !k.has(#[trigger] s[i]) by {
            if i > 0 {
                assert(!k.has(s.drop_first()[i - 1]));
            }
        }
    }
}

/// No piece holds the character that separates them, and each is part of the
/// text.
pub proof fn lemma_pieces(s: Seq<char>, c: char)
    ensures
        pieces(s, c).len() >= 1,
        forall|i: int| 0 <= i < pieces(s, c).len() ==> !(#[trigger] pieces(s, c)[i]).contains(c),
    decreases s.len(),
{
    let n = first_of(s, Class::Only(c));
    lemma_first_of_is(s, Class::Only(c));
    if n < s.len() {
        lemma_pieces(s.skip(n + 1), c);
        let head = s.take(n);
        let rest = pieces(s.skip(n + 1), c);
        assert(!head.contains(c)) by {
            if head.contains(c) {
                let j = choose|j: int| 0 <= j < head.len() && head[j] == c;
                assert(!Class::Only(c).has(s[j]));
            }
        }
        assert forall|i: int| 0 <= i < pieces(s, c).len() implies !(#[trigger] pieces(
            s,
            c,
        )[i]).contains(c) by {
            if i > 0 {
                assert(pieces(s, c)[i] == rest[i - 1]);
            }
        }
    } else if s.contains(c) {
        let j = choose|j: int| 0 <= j < s.len() && s[j] == c;
        assert(!Class::Only(c).has(s[j]));
    }
}

/// A text without the separator is one piece.
pub proof fn lemma_one_piece(s: Seq<char>, c: char)
    requires
        !s.contains(c),
    ensures
        pieces(s, c) == seq![s],
{
    assert forall|i: int| 0 <= i < s.len() implies !Class::Only(c).has(#[trigger] s[i]) by {
        assert(s.contains(s[i]));
    }
    lemma_first_of(s, Class::Only(c), s.len() as int);
}

/// What follows a separator is a piece of its own.
pub proof fn lemma_pieces_then(s: Seq<char>, c: char, last: Seq<char>)
    requires
        !last.contains(c),
    ensures
        pieces(s.push(c) + last, c) == pieces(s, c).push(last),
    decreases s.len(),
{
    let k = Class::Only(c);
    let all = s.push(c) + last;
    let n = first_of(s, k);
    lemma_first_of_is(s, k);
    assert forall|i: int| 0 <= i < n implies !k.has(#[trigger] all[i]) by {
        assert(!k.has(s[i]));
    }
    lemma_first_of(all, k, n);
    assert(all.take(n) =~= s.take(n));
    if n < s.len() {
        assert(all.skip(n + 1) =~= s.skip(n + 1).push(c) + last);
        lemma_pieces_then(s.skip(n + 1), c, last);
        assert(seq![s.take(n)] + pieces(s.skip(n + 1), c).push(last) =~= (seq![s.take(n)] + pieces(
            s.skip(n + 1),
            c,
        )).push(last));
    } else {
        assert(s.take(n) =~= s);
        assert(all.skip(n + 1) =~= last);
        lemma_one_piece(last, c);
        assert(seq![s] + seq![last] =~= seq![s].push(last));
    }
}

/// The pieces of two texts with a separator between them.
pub proof fn lemma_pieces_of_two(s: Seq<char>, c: char, t: Seq<char>)
    ensures
        pieces(s.push(c) + t, c) == pieces(s, c) + pieces(t, c),
    decreases s.len(),
{
    let k = Class::Only(c);
    let all = s.push(c) + t;
    let n = first_of(s, k);
    lemma_first_of_is(s, k);
    assert forall|i: int| 0 <= i < n implies !k.has(#[trigger] all[i]) by {
        assert(!k.has(s[i]));
    }
    lemma_first_of(all, k, n);
    assert(all.take(n) =~= s.take(n));
    if n < s.len() {
        assert(all.skip(n + 1) =~= s.skip(n + 1).push(c) + t);
        lemma_pieces_of_two(s.skip(n + 1), c, t);
        assert(seq![s.take(n)] + (pieces(s.skip(n + 1), c) + pieces(t, c)) =~= (seq![s.take(n)]
            + pieces(s.skip(n + 1), c)) + pieces(t, c));
    } else {
        assert(s.take(n) =~= s);
        assert(all.skip(n + 1) =~= t);
    }
}

/// Joining lines with an ending and splitting the text again gives the lines
/// back, each with what the ending has in front of its line feed.
pub proof fn lemma_pieces_of_joined(lines: Seq<Seq<char>>, c: char, pre: Seq<char>, sep: Seq<char>)
    requires
        lines.len() > 0,
        sep == pre.push(c),
        !pre.contains(c),
        forall|i: int| 0 <= i < lines.len() ==> !(#[trigger] lines[i]).contains(c),
    ensures
        pieces(joined(lines, sep) + pre, c) == lines.map_values(|l: Seq<char>| l + pre),
    decreases lines.len(),
{
    let f = |l: Seq<char>| l + pre;
    let last = lines.last();
    assert(!(last + pre).contains(c)) by {
        if (last + pre).contains(c) {
            let j = choose|j: int| 0 <= j < (last + pre).len() && (last + pre)[j] == c;
            if j < last.len() {
                assert(last.contains(last[j]));
            } else {
                assert(pre.contains(pre[j - last.len()]));
            }
        }
    }
    if lines.len() == 1 {
        lemma_one_piece(last + pre, c);
        assert(lines.map_values(f) =~= seq![last + pre]);
    } else {
        let front = lines.drop_last();
        assert forall|i: int| 0 <= i < front.len() implies !(#[trigger] front[i]).contains(c) by {
            assert(front[i] == lines[i]);
        }
        lemma_pieces_of_joined(front, c, pre, sep);
        assert(joined(lines, sep) + pre =~= (joined(front, sep) + pre).push(c) + (last + pre));
        lemma_pieces_then(joined(front, sep) + pre, c, last + pre);
        assert(lines.map_values(f) =~= front.map_values(f).push(last + pre));
    }
}

/// Where a part of two characters occurs.
pub proof fn lemma_position_of_pair(s: Seq<char>, part: Seq<char>)
    requires
        part.len() == 2,
    ensures
        position_of(s, part) is Some <==> exists|i: int|
            0 <= i < s.len() - 1 && #[trigger] s[i] == part[0] && s[i + 1] == part[1],
    decreases s.len(),
{
    if part.is_prefix_of(s) {
        assert(s[0] == part[0] && s[1] == part[1]);
    } else if s.len() > 0 {
        let t = s.drop_first();
        lemma_position_of_pair(t, part);
        if position_of(t, part) is Some {
            let j = choose|j: int|
                0 <= j < t.len() - 1 && #[trigger] t[j] == part[0] && t[j + 1] == part[1];
            assert(s[j + 1] == part[0]);
        }
        if exists|i: int| 0 <= i < s.len() - 1 && #[trigger] s[i] == part[0] && s[i + 1] == part[1] {
            let i = choose|i: int|
                0 <= i < s.len() - 1 && #[trigger] s[i] == part[0] && s[i + 1] == part[1];
            if i == 0 {
                assert(part =~= s.take(2));
            } else {
                assert(t[i - 1] == part[0]);
            }
        }
    }
}

/// What one more text does to the views.
pub proof fn lemma_texts_push(v: Seq<Vec<char>>, t: Vec<char>)
    ensures
        texts(v.push(t)) == texts(v).push(t@),
{
    assert(texts(v.push(t)) =~= texts(v).push(t@));
}

/// The first part of a text stands before the rest.
pub proof fn lemma_joined_first(first: Seq<char>, rest: Seq<Seq<char>>, sep: Seq<char>)
    requires
        rest.len() > 0,
    ensures
        joined(seq![first] + rest, sep) == first + sep + joined(rest, sep),
    decreases rest.len(),
{
    let all = seq![first] + rest;
    assert(all.last() == rest.last());
    assert(all.drop_last() =~= seq![first] + rest.drop_last());
    if rest.len() == 1 {
        reveal_with_fuel(joined, 2);
        assert(all.drop_last() =~= seq![first]);
    } else {
        lemma_joined_first(first, rest.drop_last(), sep);
        assert(first + sep + joined(rest.drop_last(), sep) + sep + rest.last() =~= first + sep + (
        joined(rest.drop_last(), sep) + sep + rest.last()));
    }
}

/// Whether `part` stands at place `k` of `s`.
pub open spec fn stands_at(s: Seq<char>, part: Seq<char>, k: int) -> bool {
    0 <= k && k + part.len() <= s.len() && s.subrange(k, k + part.len()) == part
}

/// What [`position_of`] finds.
pub proof fn lemma_position_of(s: Seq<char>, part: Seq<char>)
    ensures
        match position_of(s, part) {
            Some(i) => stands_at(s, part, i) && (forall|k: int| #[trigger]
                stands_at(s, part, k) ==> k >= i),
            None => forall|k: int| !(#[trigger] stands_at(s, part, k)),
        },
    decreases s.len(),
{
    if part.is_prefix_of(s) {
        assert(s.subrange(0, part.len() as int) =~= part);
    } else {
        assert(!stands_at(s, part, 0)) by {
            if stands_at(s, part, 0) {
                assert(part =~= s.take(part.len() as int));
            }
        }
        if s.len() > 0 {
            let t = s.drop_first();
            lemma_position_of(t, part);
            assert forall|k: int| k >= 1 implies (#[trigger] stands_at(s, part, k)) == stands_at(
                t,
                part,
                k - 1,
            ) by {
                if k + part.len() <= s.len() {
                    assert(s.subrange(k, k + part.len()) =~= t.subrange(k - 1, k - 1 + part.len()));
                }
            }
        }
    }
}

/// The first place where `part` stands is where it is found.
pub proof fn lemma_position_is(s: Seq<char>, part: Seq<char>, n: int)
    requires
        stands_at(s, part, n),
        forall|k: int| #[trigger] stands_at(s, part, k) ==> k >= n,
    ensures
        position_of(s, part) == Some(n),
{
    lemma_position_of(s, part);
}

/// Trimming takes off exactly the characters of the class at either end.
pub proof fn law_trimmed(s: Seq<char>, k: Class)
    ensures
        exists|a: int, b: int|
            0 <= a <= b <= s.len() && trimmed_of(s, k) == #[trigger] s.subrange(a, b) && (forall|i: int|
                0 <= i < a || b <= i < s.len() ==> k.has(#[trigger] s[i])) && (a < b ==> !k.has(s[a])
                && !k.has(s[b - 1])),
{
    let t = trimmed_start(s, k);
    let u = trimmed_of(s, k);
    lemma_trimmed_start(s, k);
    lemma_trimmed_end(t, k);
    lemma_dropped_start(s, k);
    lemma_dropped_end(t, k);
    let a = s.len() - t.len();
    let b = a + u.len();
    assert(s.subrange(a, b) =~= u);
    assert forall|i: int| 0 <= i < a || b <= i < s.len() implies k.has(#[trigger] s[i]) by {
        if i >= b {
            assert(t[i - a] == s[i]);
        }
    }
}

proof fn lemma_dropped_start(s: Seq<char>, k: Class)
    ensures
        forall|i: int| 0 <= i < s.len() - trimmed_start(s, k).len() ==> k.has(#[trigger] s[i]),
    decreases s.len(),
{
    if s.len() > 0 && k.has(s[0]) {
        lemma_dropped_start(s.drop_first(), k);
        assert forall|i: int| 0 <= i < s.len() - trimmed_start(s, k).len() implies k.has(
            #[trigger] s[i],
        ) by {
            if i > 0 {
                assert(s.drop_first()[i - 1] == s[i]);
            }
        }
    }
}

proof fn lemma_dropped_end(s: Seq<char>, k: Class)
    ensures
        forall|i: int| trimmed_end(s, k).len() <= i < s.len() ==> k.has(#[trigger] s[i]),
    decreases s.len(),
{
    if s.len() > 0 && k.has(s.last()) {
        lemma_dropped_end(s.drop_last(), k);
        assert forall|i: int| trimmed_end(s, k).len() <= i < s.len() implies k.has(
            #[trigger] s[i],
        ) by {
            if i < s.len() - 1 {
                assert(s.drop_last()[i] == s[i]);
            }
        }
    }
}

/// The pieces of a text, put together again with the separator between them,
/// are the text, and none of them holds the separator.
pub proof fn law_pieces_make_the_text(s: Seq<char>, c: char)
    ensures
        joined(pieces(s, c), seq![c]) == s,
        forall|i: int| 0 <= i < pieces(s, c).len() ==> !(#[trigger] pieces(s, c)[i]).contains(c),
    decreases s.len(),
{
    lemma_pieces(s, c);
    lemma_first_of_is(s, Class::Only(c));
    let n = first_of(s, Class::Only(c));
    if n < s.len() {
        let rest = s.skip(n + 1);
        law_pieces_make_the_text(rest, c);
        lemma_pieces(rest, c);
        lemma_joined_first(s.take(n), pieces(rest, c), seq![c]);
        assert(s.take(n) + seq![c] + rest =~= s);
    }
}

/// The lines of a text are its pieces between line feeds; a line feed at its end
/// begins no further line.
pub proof fn law_lines(s: Seq<char>)
    ensures
        s.len() > 0 && s.last() != '\n' ==> lines_of(s) == pieces(s, '\n'),
        s.len() == 0 ==> lines_of(s).len() == 0,
        lines_of(s.push('\n')) == pieces(s, '\n'),
{
    let none = Seq::<char>::empty();
    let cut = pieces(s, '\n');
    lemma_pieces_then(s, '\n', none);
    assert(s.push('\n') + none =~= s.push('\n'));
    assert(cut.push(none).drop_last() =~= cut);
    if s.len() == 0 {
        lemma_one_piece(s, '\n');
    } else if s.last() != '\n' && cut.last().len() == 0 {
        law_pieces_make_the_text(s, '\n');
        lemma_pieces(s, '\n');
        if cut.len() > 1 {
            assert(s.last() == '\n') by {
                let front = joined(cut.drop_last(), seq!['\n']);
                assert(s =~= front.push('\n'));
            }
        }
    }
}

/// White space is what Unicode calls so: by code point, the controls from U+0009
/// to U+000D, the space, U+0085, U+00A0, U+1680, U+2000 to U+200A, U+2028,
/// U+2029, U+202F, U+205F and U+3000.
pub proof fn law_white_space(c: char)
    ensures
        Class::Space.has(c) <==> {
            let u = c as u32;
            (0x9 <= u && u <= 0xd) || u == 0x20 || u == 0x85 || u == 0xa0 || u == 0x1680 || (0x2000
                <= u && u <= 0x200a) || u == 0x2028 || u == 0x2029 || u == 0x202f || u == 0x205f
                || u == 0x3000
        },
{
}

} // verus!
