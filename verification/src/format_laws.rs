//! What holds of every formatted text.

use vstd::prelude::*;
use vstd::string::*;
use vstd::utf8::*;

use crate::format::after_row;
use crate::format::assembled;
use crate::format::below;
use crate::format::collapsed;
use crate::format::deltas_in;
use crate::format::ending;
use crate::format::formatted;
use crate::format::formatted_by;
use crate::format::formatted_lines;
use crate::format::in_order;
use crate::format::indented;
use crate::format::laid_out;
use crate::format::lowest;
use crate::format::marks_of;
use crate::format::nesting_at;
use crate::format::placed;
use crate::format::row_starts;
use crate::format::tabs;
use crate::format::within;
use crate::format::Mark;
use crate::format::Nesting;
use crate::grammar::parsed;
use crate::syntax::NodeView;
use crate::syntax::TreeView;
use crate::text::is_space;
use crate::text::joined;
use crate::text::pieces;
use crate::text::position_of;
use crate::text::trimmed;
use crate::text::without_tail;
use crate::text::Class;
use crate::text_facts::lemma_one_piece;
use crate::text_facts::lemma_pieces;
use crate::text_facts::lemma_pieces_of_joined;
use crate::text_facts::lemma_pieces_then;
use crate::text_facts::lemma_position_of_pair;
use crate::text_facts::lemma_trimmed_again;
use crate::text_facts::lemma_trimmed_of;
use crate::text_facts::lemma_trimmed_push;

verus! {

/// The lines that are not blank, each without the white space at its ends.
pub open spec fn contents(lines: Seq<Seq<char>>) -> Seq<Seq<char>>
    decreases lines.len(),
{
    if lines.len() == 0 {
        seq![]
    } else {
        let rest = contents(lines.drop_last());
        if trimmed(lines.last()).len() == 0 {
            rest
        } else {
            rest.push(trimmed(lines.last()))
        }
    }
}

/// The nesting at the beginning of row `r` of a text.
pub open spec fn row_nesting(source: Seq<char>, ns: Seq<NodeView>, r: int) -> Nesting {
    let bytes = encode_utf8(source);
    nesting_at(marks_of(ns, bytes), row_starts(bytes), r)
}

/// The rows of a text that [`collapsed`] keeps.
pub open spec fn kept_rows(lines: Seq<Seq<char>>) -> Seq<int>
    decreases lines.len(),
{
    if lines.len() == 0 {
        seq![]
    } else {
        let kept = kept_rows(lines.drop_last());
        if lines.last().len() == 0 && (kept.len() == 0 || lines[kept.last()].len() == 0) {
            kept
        } else {
            kept.push(lines.len() - 1)
        }
    }
}

/// The rows of `source` that the lines of its formatted text come from.
pub open spec fn rows_kept(source: Seq<char>, ns: Seq<NodeView>) -> Seq<int> {
    let bytes = encode_utf8(source);
    kept_rows(indented(pieces(source, '\n'), marks_of(ns, bytes), row_starts(bytes)))
}

/// What stands before the line feed in a line ending.
pub open spec fn before_feed(nl: Seq<char>) -> Seq<char> {
    nl.drop_last()
}

pub proof fn lemma_kept(lines: Seq<Seq<char>>)
    ensures
        collapsed(lines).len() == kept_rows(lines).len(),
        forall|i: int|
            0 <= i < kept_rows(lines).len() ==> 0 <= #[trigger] kept_rows(lines)[i] < lines.len()
                && collapsed(lines)[i] == lines[kept_rows(lines)[i]],
        forall|i: int, j: int|
            0 <= i < j < kept_rows(lines).len() ==> #[trigger] kept_rows(lines)[i]
                < #[trigger] kept_rows(lines)[j],
    decreases lines.len(),
{
    if lines.len() > 0 {
        let front = lines.drop_last();
        lemma_kept(front);
        let kept = kept_rows(front);
        if kept.len() > 0 {
            assert(collapsed(front).last() == front[kept.last()]);
            assert(front[kept.last()] == lines[kept.last()]);
        }
        assert forall|i: int| 0 <= i < kept_rows(lines).len() implies 0 <= #[trigger] kept_rows(
            lines,
        )[i] < lines.len() && collapsed(lines)[i] == lines[kept_rows(lines)[i]] by {
            if i < kept.len() {
                assert(front[kept[i]] == lines[kept[i]]);
            }
        }
    }
}

/// No blank line comes first, and no two come after one another.
pub open spec fn spaced(lines: Seq<Seq<char>>) -> bool {
    &&& lines.len() > 0 ==> lines[0].len() > 0
    &&& forall|i: int| 0 < i < lines.len() ==> lines[i - 1].len() > 0 || (#[trigger] lines[i]).len() > 0
}

proof fn lemma_collapsed_spaced(lines: Seq<Seq<char>>)
    ensures
        spaced(collapsed(lines)),
    decreases lines.len(),
{
    if lines.len() > 0 {
        lemma_collapsed_spaced(lines.drop_last());
        let kept = collapsed(lines.drop_last());
        let now = collapsed(lines);
        assert forall|i: int| 0 < i < now.len() implies now[i - 1].len() > 0 || (
        #[trigger] now[i]).len() > 0 by {
            if i < kept.len() {
                assert(kept[i] == now[i]);
                assert(kept[i - 1] == now[i - 1]);
            }
        }
    }
}

proof fn lemma_spaced_collapsed(lines: Seq<Seq<char>>)
    requires
        spaced(lines),
    ensures
        collapsed(lines) == lines,
    decreases lines.len(),
{
    if lines.len() > 0 {
        let front = lines.drop_last();
        assert forall|i: int| 0 < i < front.len() implies front[i - 1].len() > 0 || (
        #[trigger] front[i]).len() > 0 by {
            assert(lines[i].len() > 0 || lines[i - 1].len() > 0);
        }
        lemma_spaced_collapsed(front);
        if front.len() > 0 {
            assert(lines[lines.len() - 1].len() > 0 || lines[lines.len() - 2].len() > 0);
            assert(front.last() == lines[lines.len() - 2]);
        }
        assert(front.push(lines.last()) =~= lines);
    } else {
        assert(collapsed(lines) =~= lines);
    }
}

pub proof fn lemma_without_tail(lines: Seq<Seq<char>>)
    ensures
        without_tail(lines).len() <= lines.len(),
        without_tail(lines) == lines.take(without_tail(lines).len() as int),
        without_tail(lines).len() > 0 ==> without_tail(lines).last().len() > 0,
    decreases lines.len(),
{
    if lines.len() > 0 && lines.last().len() == 0 {
        lemma_without_tail(lines.drop_last());
        let n = without_tail(lines).len() as int;
        assert(lines.drop_last().take(n) =~= lines.take(n));
    } else {
        assert(lines.take(lines.len() as int) =~= lines);
    }
}

/// The line that a line of the formatted text is made from.
pub proof fn lemma_line(source: Seq<char>, ns: Seq<NodeView>, i: int)
    requires
        0 <= i < formatted_lines(source, ns).len(),
    ensures
        0 <= rows_kept(source, ns)[i] < pieces(source, '\n').len(),
        formatted_lines(source, ns)[i] == laid_out(
            pieces(source, '\n')[rows_kept(source, ns)[i]],
            row_nesting(source, ns, rows_kept(source, ns)[i]),
        ),
{
    let bytes = encode_utf8(source);
    let all = indented(pieces(source, '\n'), marks_of(ns, bytes), row_starts(bytes));
    lemma_kept(all);
    lemma_without_tail(collapsed(all));
    assert(kept_rows(all)[i] < all.len());
}

/// What a laid out line holds.
pub proof fn lemma_laid_out(line: Seq<char>, at: Nesting)
    ensures
        trimmed(laid_out(line, at)) == trimmed(line),
        laid_out(line, at).len() == 0 <==> trimmed(line).len() == 0,
        laid_out(line, at).len() > 0 ==> !is_space(laid_out(line, at).last()),
        !line.contains('\n') ==> !laid_out(line, at).contains('\n'),
{
    let t = trimmed(line);
    lemma_trimmed_of(line, Class::Space);
    if t.len() == 0 {
        assert(laid_out(line, at) =~= t);
        lemma_trimmed_again(Seq::<char>::empty(), line, Class::Space);
        assert(Seq::<char>::empty() + t =~= t);
    } else {
        let n = crate::format::indent(t, at);
        lemma_trimmed_again(tabs(n), line, Class::Space);
        let out = tabs(n) + t;
        assert(out.last() == t.last());
        if !line.contains('\n') && out.contains('\n') {
            let j = choose|j: int| 0 <= j < out.len() && out[j] == '\n';
            if j >= tabs(n).len() {
                assert(t[j - tabs(n).len()] == '\n');
                assert(t.contains('\n'));
            }
        }
    }
}

/// The two line endings.
proof fn lemma_ending(source: Seq<char>)
    ensures
        ending(source) == before_feed(ending(source)).push('\n'),
        before_feed(ending(source)) == Seq::<char>::empty() || before_feed(ending(source)) == seq!['\r'],
        !before_feed(ending(source)).contains('\n'),
        ending(source) == "\r\n"@ <==> before_feed(ending(source)) == seq!['\r'],
        "\r\n"@ == seq!['\r', '\n'],
        "\n"@ == seq!['\n'],
{
    reveal_strlit("\r\n");
    reveal_strlit("\n");
    assert("\r\n"@ =~= seq!['\r', '\n']);
    assert("\n"@ =~= seq!['\n']);
    assert("\r\n"@.drop_last() =~= seq!['\r']);
    assert("\n"@.drop_last() =~= Seq::<char>::empty());
    assert(seq!['\r'].push('\n') =~= seq!['\r', '\n']);
    assert(Seq::<char>::empty().push('\n') =~= seq!['\n']);
    assert(Seq::<char>::empty().len() != seq!['\r'].len());
}

/// No line of the formatted text holds a line feed.
proof fn lemma_no_feed(source: Seq<char>, ns: Seq<NodeView>)
    ensures
        forall|i: int|
            0 <= i < formatted_lines(source, ns).len() ==> !(#[trigger] formatted_lines(
                source,
                ns,
            )[i]).contains('\n'),
{
    let lines = formatted_lines(source, ns);
    assert forall|i: int| 0 <= i < lines.len() implies !(#[trigger] lines[i]).contains('\n') by {
        lemma_line(source, ns, i);
        lemma_pieces(source, '\n');
        let line = pieces(source, '\n')[rows_kept(source, ns)[i]];
        lemma_laid_out(line, row_nesting(source, ns, rows_kept(source, ns)[i]));
    }
}

/// The text that [`formatted`] puts together falls into its lines again.
proof fn lemma_output_pieces(source: Seq<char>, ns: Seq<NodeView>)
    requires
        formatted_lines(source, ns).len() > 0,
    ensures
        pieces(assembled(formatted_lines(source, ns), ending(source)), '\n')
            == formatted_lines(source, ns).map_values(
            |l: Seq<char>| l + before_feed(ending(source)),
        ).push(seq![]),
{
    let lines = formatted_lines(source, ns);
    let nl = ending(source);
    let pre = before_feed(nl);
    lemma_ending(source);
    lemma_no_feed(source, ns);
    lemma_pieces_of_joined(lines, '\n', pre, nl);
    lemma_pieces_then(joined(lines, nl) + pre, '\n', Seq::<char>::empty());
    assert(joined(lines, nl) + nl =~= (joined(lines, nl) + pre).push('\n') + Seq::<char>::empty());
}

proof fn lemma_contents_push(lines: Seq<Seq<char>>, last: Seq<char>)
    ensures
        contents(lines.push(last)) == (if trimmed(last).len() == 0 {
            contents(lines)
        } else {
            contents(lines).push(trimmed(last))
        }),
{
    assert(lines.push(last).drop_last() =~= lines);
}

proof fn lemma_contents_same(a: Seq<Seq<char>>, b: Seq<Seq<char>>)
    requires
        a.len() == b.len(),
        forall|i: int| 0 <= i < a.len() ==> trimmed(#[trigger] a[i]) == trimmed(b[i]),
    ensures
        contents(a) == contents(b),
    decreases a.len(),
{
    if a.len() > 0 {
        assert(trimmed(a[a.len() - 1]) == trimmed(b[b.len() - 1]));
        assert forall|i: int| 0 <= i < a.drop_last().len() implies trimmed(
            #[trigger] a.drop_last()[i],
        ) == trimmed(b.drop_last()[i]) by {
            assert(trimmed(a[i]) == trimmed(b[i]));
        }
        lemma_contents_same(a.drop_last(), b.drop_last());
    }
}

proof fn lemma_contents_collapsed(lines: Seq<Seq<char>>)
    ensures
        contents(collapsed(lines)) == contents(lines),
    decreases lines.len(),
{
    if lines.len() > 0 {
        lemma_contents_collapsed(lines.drop_last());
        lemma_contents_push(collapsed(lines.drop_last()), lines.last());
        lemma_blank(lines.last());
    } else {
        assert(collapsed(lines) =~= lines);
    }
}

proof fn lemma_blank(line: Seq<char>)
    ensures
        line.len() == 0 ==> trimmed(line).len() == 0,
{
    if line.len() == 0 && trimmed(line).len() > 0 {
        lemma_trimmed_of(line, Class::Space);
        assert(trimmed(line).contains(trimmed(line)[0]));
    }
}

proof fn lemma_contents_tail(lines: Seq<Seq<char>>)
    ensures
        contents(without_tail(lines)) == contents(lines),
    decreases lines.len(),
{
    if lines.len() > 0 && lines.last().len() == 0 {
        lemma_contents_tail(lines.drop_last());
        lemma_blank(lines.last());
    }
}

/// A text with a syntax error stays as it is.
pub proof fn law_errors_untouched(source: Seq<char>, tree: TreeView)
    requires
        tree.has_error,
    ensures
        formatted(source, tree) == source,
{
}

/// Only indentation, blank lines and white space at the ends of lines change:
/// the lines that are not blank come out in their order, each with the same
/// text between its ends.
pub proof fn law_contents_kept(source: Seq<char>, tree: TreeView)
    ensures
        contents(pieces(formatted(source, tree), '\n')) == contents(pieces(source, '\n')),
{
    if !tree.has_error {
        let ns = tree.nodes;
        let bytes = encode_utf8(source);
        let lines = pieces(source, '\n');
        let all = indented(lines, marks_of(ns, bytes), row_starts(bytes));
        assert forall|i: int| 0 <= i < all.len() implies trimmed(#[trigger] all[i]) == trimmed(
            lines[i],
        ) by {
            lemma_laid_out(lines[i], row_nesting(source, ns, i));
        }
        lemma_contents_same(all, lines);
        lemma_contents_collapsed(all);
        lemma_contents_tail(collapsed(all));
        let out = formatted_lines(source, ns);
        let empty = Seq::<char>::empty();
        lemma_blank(empty);
        if out.len() == 0 {
            lemma_one_piece(empty, '\n');
            assert(formatted(source, tree) =~= empty);
            assert(seq![empty] =~= Seq::<Seq<char>>::empty().push(empty));
            lemma_contents_push(Seq::<Seq<char>>::empty(), empty);
            assert(out =~= Seq::<Seq<char>>::empty());
        } else {
            lemma_output_pieces(source, ns);
            lemma_ending(source);
            let pre = before_feed(ending(source));
            let cut = out.map_values(|l: Seq<char>| l + pre);
            lemma_contents_push(cut, empty);
            assert forall|i: int| 0 <= i < cut.len() implies trimmed(#[trigger] cut[i]) == trimmed(
                out[i],
            ) by {
                if pre.len() == 0 {
                    assert(out[i] + pre =~= out[i]);
                } else {
                    assert(out[i] + pre =~= out[i].push('\r'));
                    lemma_trimmed_push(out[i], '\r', Class::Space);
                }
            }
            lemma_contents_same(cut, out);
        }
    }
}

/// A formatted text has no white space at the end of a line, no blank line at
/// either end, and no two blank lines after one another.
pub proof fn law_tidy(source: Seq<char>, ns: Seq<NodeView>)
    ensures
        spaced(formatted_lines(source, ns)),
        formatted_lines(source, ns).len() > 0 ==> formatted_lines(source, ns).last().len() > 0,
        forall|i: int|
            0 <= i < formatted_lines(source, ns).len() && (#[trigger] formatted_lines(
                source,
                ns,
            )[i]).len() > 0 ==> !is_space(formatted_lines(source, ns)[i].last()),
{
    let bytes = encode_utf8(source);
    let all = indented(pieces(source, '\n'), marks_of(ns, bytes), row_starts(bytes));
    lemma_collapsed_spaced(all);
    lemma_without_tail(collapsed(all));
    let out = formatted_lines(source, ns);
    assert forall|i: int| 0 < i < out.len() implies out[i - 1].len() > 0 || (
    #[trigger] out[i]).len() > 0 by {
        assert(collapsed(all)[i] == out[i]);
    }
    assert forall|i: int| 0 <= i < out.len() && (#[trigger] out[i]).len() > 0 implies !is_space(
        out[i].last(),
    ) by {
        lemma_line(source, ns, i);
        let line = pieces(source, '\n')[rows_kept(source, ns)[i]];
        lemma_laid_out(line, row_nesting(source, ns, rows_kept(source, ns)[i]));
    }
}

/// A formatted text is empty, or consists of its lines, each with one line
/// ending of the kind that the source has.
pub proof fn law_lines_of_output(source: Seq<char>, tree: TreeView)
    requires
        !tree.has_error,
    ensures
        formatted_lines(source, tree.nodes).len() == 0 ==> formatted(source, tree) == Seq::<char>::empty(),
        formatted_lines(source, tree.nodes).len() > 0 ==> pieces(formatted(source, tree), '\n')
            == formatted_lines(source, tree.nodes).map_values(
            |l: Seq<char>| l + before_feed(ending(source)),
        ).push(seq![]),
{
    if formatted_lines(source, tree.nodes).len() > 0 {
        lemma_output_pieces(source, tree.nodes);
    }
}

/// A text that was put together with one ending has no other.
proof fn lemma_ending_kept(source: Seq<char>, ns: Seq<NodeView>)
    requires
        formatted_lines(source, ns).len() > 0,
    ensures
        ending(assembled(formatted_lines(source, ns), ending(source))) == ending(source),
{
    let lines = formatted_lines(source, ns);
    let nl = ending(source);
    let out = assembled(lines, nl);
    let n = joined(lines, nl).len() as int;
    lemma_ending(source);
    lemma_position_of_pair(out, "\r\n"@);
    if before_feed(nl).len() > 0 {
        assert(out[n] == nl[0]);
        assert(out[n + 1] == nl[1]);
    } else {
        law_tidy(source, ns);
        assert(nl =~= seq!['\n']);
        lemma_no_feed(source, ns);
        lemma_no_return(lines);
        if position_of(out, "\r\n"@) is Some {
            let i = choose|i: int|
                0 <= i < out.len() - 1 && #[trigger] out[i] == '\r' && out[i + 1] == '\n';
            if i + 1 < n {
                assert(joined(lines, nl)[i] == '\r');
                assert(joined(lines, nl)[i + 1] == '\n');
            } else {
                assert(joined(lines, nl)[i] == joined(lines, nl).last());
            }
        }
    }
}

/// No carriage return stands before a line feed between tidy lines.
proof fn lemma_no_return(lines: Seq<Seq<char>>)
    requires
        lines.len() > 0,
        forall|i: int|
            0 <= i < lines.len() && (#[trigger] lines[i]).len() > 0 ==> !is_space(lines[i].last()),
        forall|i: int| 0 <= i < lines.len() ==> !(#[trigger] lines[i]).contains('\n'),
    ensures
        forall|i: int|
            0 <= i < joined(lines, seq!['\n']).len() - 1 && #[trigger] joined(lines, seq!['\n'])[i]
                == '\r' ==> joined(lines, seq!['\n'])[i + 1] != '\n',
        joined(lines, seq!['\n']).len() > 0 ==> joined(lines, seq!['\n']).last() != '\r',
    decreases lines.len(),
{
    let sep = seq!['\n'];
    let all = joined(lines, sep);
    let last = lines.last();
    assert(!last.contains('\n'));
    assert(last.len() > 0 ==> !is_space(last.last()));
    if lines.len() == 1 {
        assert forall|i: int| 0 <= i < all.len() - 1 && #[trigger] all[i] == '\r' implies all[i + 1]
            != '\n' by {
            assert(last.contains(last[i + 1]));
        }
    } else {
        let front = lines.drop_last();
        assert forall|i: int| 0 <= i < front.len() && (#[trigger] front[i]).len() > 0 implies
            !is_space(front[i].last()) by {
            assert(front[i] == lines[i]);
        }
        assert forall|i: int| 0 <= i < front.len() implies !(#[trigger] front[i]).contains('\n') by {
            assert(front[i] == lines[i]);
        }
        lemma_no_return(front);
        let head = joined(front, sep);
        assert(all =~= head + sep + last);
        assert forall|i: int| 0 <= i < all.len() - 1 && #[trigger] all[i] == '\r' implies all[i + 1]
            != '\n' by {
            if i + 1 < head.len() {
                assert(head[i] == '\r');
            } else if i + 1 == head.len() {
                assert(head[i] == head.last());
            } else if i == head.len() {
                assert(all[i] == '\n');
            } else {
                let j = i - head.len() - 1;
                assert(all[i + 1] == last[j + 1]);
                assert(last.contains(last[j + 1]));
            }
        }
        if last.len() > 0 {
            assert(all.last() == last.last());
        } else {
            assert(all.last() == '\n');
        }
    }
}

/// Whether the tree `second` of a formatted text puts each line at the nesting
/// that its row of the source had by the tree `first`.
spec fn same_nesting(source: Seq<char>, first: TreeView, second: TreeView) -> bool {
    forall|r: int|
        0 <= r < formatted_lines(source, first.nodes).len() ==> #[trigger] row_nesting(
            formatted(source, first),
            second.nodes,
            r,
        ) == row_nesting(source, first.nodes, rows_kept(source, first.nodes)[r])
}

/// A formatted text whose tree puts each line at the nesting that its row of
/// the source had is formatted to itself.
proof fn lemma_idempotent(source: Seq<char>, first: TreeView, second: TreeView)
    requires
        !first.has_error,
        same_nesting(source, first, second),
    ensures
        formatted(formatted(source, first), second) == formatted(source, first),
{
    let out = formatted(source, first);
    if !second.has_error {
        let ns = first.nodes;
        let lines = formatted_lines(source, ns);
        let nl = ending(source);
        let pre = before_feed(nl);
        let bytes = encode_utf8(out);
        let empty = Seq::<char>::empty();
        let cut = pieces(out, '\n');
        let all = indented(cut, marks_of(second.nodes, bytes), row_starts(bytes));
        lemma_blank(empty);
        if lines.len() == 0 {
            assert(out =~= empty);
            lemma_one_piece(empty, '\n');
            reveal_with_fuel(collapsed, 2);
            assert(all.len() == 1);
            assert(all[0].len() == 0);
            assert(collapsed(all) =~= Seq::<Seq<char>>::empty());
            assert(formatted(out, second) =~= empty);
        } else {
            lemma_output_pieces(source, ns);
            lemma_ending(source);
            assert forall|r: int| 0 <= r < lines.len() implies #[trigger] all[r] == lines[r] by {
                let from = rows_kept(source, ns)[r];
                lemma_line(source, ns, r);
                let line = pieces(source, '\n')[from];
                let at = row_nesting(source, ns, from);
                lemma_laid_out(line, at);
                assert(row_nesting(out, second.nodes, r) == at);
                assert(cut[r] == lines[r] + pre);
                if pre.len() == 0 {
                    assert(lines[r] + pre =~= lines[r]);
                } else {
                    assert(lines[r] + pre =~= lines[r].push('\r'));
                    lemma_trimmed_push(lines[r], '\r', Class::Space);
                }
                assert(trimmed(cut[r]) == trimmed(line));
            }
            assert(all[lines.len() as int].len() == 0);
            assert(all =~= lines.push(empty));
            law_tidy(source, ns);
            lemma_spaced_collapsed(lines);
            assert(lines.push(empty).drop_last() =~= lines);
            assert(collapsed(all) =~= all);
            reveal_with_fuel(without_tail, 2);
            assert(without_tail(all) == lines);
            lemma_ending_kept(source, ns);
        }
    }
}

/// The changes of nesting in row `r` of a text.
pub open spec fn row_changes(source: Seq<char>, ns: Seq<NodeView>, r: int) -> Seq<bool> {
    let bytes = encode_utf8(source);
    deltas_in(marks_of(ns, bytes), row_starts(bytes), r)
}

/// Whether the tree `second` of a formatted text finds in each line the
/// changes of nesting that the tree `first` found in its row of the source,
/// and `first` found none in the blank rows that went.
pub open spec fn same_brackets(source: Seq<char>, first: TreeView, second: TreeView) -> bool {
    &&& forall|r: int|
        0 <= r < formatted_lines(source, first.nodes).len() ==> #[trigger] row_changes(
            formatted(source, first),
            second.nodes,
            r,
        ) == row_changes(source, first.nodes, rows_kept(source, first.nodes)[r])
    &&& forall|q: int|
        0 <= q < pieces(source, '\n').len() && !rows_kept(source, first.nodes).contains(q)
            ==> #[trigger] row_changes(source, first.nodes, q) == Seq::<bool>::empty()
}

/// Rows without changes keep the nesting.
proof fn lemma_quiet(source: Seq<char>, ns: Seq<NodeView>, from: int, to: int)
    requires
        0 <= from <= to,
        forall|q: int|
            from <= q < to ==> #[trigger] row_changes(source, ns, q) == Seq::<bool>::empty(),
    ensures
        row_nesting(source, ns, to) == row_nesting(source, ns, from),
    decreases to,
{
    if from < to {
        lemma_quiet(source, ns, from, to - 1);
        assert(row_changes(source, ns, to - 1) == Seq::<bool>::empty());
    }
}

/// The rows that are kept stand in their order, with none of them between.
proof fn lemma_rows_between(source: Seq<char>, ns: Seq<NodeView>, r: int, q: int)
    requires
        0 <= r < rows_kept(source, ns).len(),
        q < rows_kept(source, ns)[r],
        r > 0 ==> rows_kept(source, ns)[r - 1] < q,
    ensures
        !rows_kept(source, ns).contains(q),
{
    let bytes = encode_utf8(source);
    let all = indented(pieces(source, '\n'), marks_of(ns, bytes), row_starts(bytes));
    let kept = rows_kept(source, ns);
    lemma_kept(all);
    if kept.contains(q) {
        let j = choose|j: int| 0 <= j < kept.len() && kept[j] == q;
        if j < r - 1 {
            assert(kept[j] < kept[r - 1]);
        } else if j > r {
            assert(kept[r] < kept[j]);
        }
    }
}

proof fn lemma_same_nesting(source: Seq<char>, first: TreeView, second: TreeView, r: int)
    requires
        same_brackets(source, first, second),
        0 <= r < formatted_lines(source, first.nodes).len(),
    ensures
        row_nesting(formatted(source, first), second.nodes, r) == row_nesting(
            source,
            first.nodes,
            rows_kept(source, first.nodes)[r],
        ),
    decreases r,
{
    let ns = first.nodes;
    let out = formatted(source, first);
    let bytes = encode_utf8(source);
    let all = indented(pieces(source, '\n'), marks_of(ns, bytes), row_starts(bytes));
    let kept = rows_kept(source, ns);
    lemma_kept(all);
    lemma_without_tail(collapsed(all));
    let from = if r == 0 {
        0
    } else {
        kept[r - 1] + 1
    };
    if r > 0 {
        assert(kept[r - 1] < kept[r]);
    }
    assert(0 <= kept[r] < all.len());
    assert forall|q: int| from <= q < kept[r] implies #[trigger] row_changes(source, ns, q)
        == Seq::<bool>::empty() by {
        lemma_rows_between(source, ns, r, q);
    }
    lemma_quiet(source, ns, from, kept[r]);
    if r > 0 {
        lemma_same_nesting(source, first, second, r - 1);
        assert(row_changes(out, second.nodes, r - 1) == row_changes(source, ns, kept[r - 1]));
    }
}

/// Formatting a formatted text changes nothing, with a grammar to which
/// indentation and blank lines do not matter: where it parses the source and
/// the formatted text without error, it finds the same brackets and chains in
/// their lines.
pub proof fn law_idempotent(language: tree_sitter::Language, source: Seq<char>)
    requires
        match (parsed(language, source), parsed(language, formatted_by(language, source))) {
            (Some(first), Some(second)) => !first.has_error && !second.has_error ==> same_brackets(
                source,
                first,
                second,
            ),
            _ => true,
        },
    ensures
        formatted_by(language, formatted_by(language, source)) == formatted_by(language, source),
{
    if let Some(first) = parsed(language, source) {
        if !first.has_error {
            if let Some(second) = parsed(language, formatted_by(language, source)) {
                if !second.has_error {
                    assert forall|r: int|
                        0 <= r < formatted_lines(source, first.nodes).len() implies #[trigger]
                    row_nesting(formatted(source, first), second.nodes, r) == row_nesting(
                        source,
                        first.nodes,
                        rows_kept(source, first.nodes)[r],
                    ) by {
                        lemma_same_nesting(source, first, second, r);
                    }
                    lemma_idempotent(source, first, second);
                }
            }
        }
    }
}

/// Whether two texts have the same lines, but for white space at the ends of
/// the lines, and the same line ending.
pub open spec fn same_contents(a: Seq<char>, b: Seq<char>) -> bool {
    let (x, y) = (pieces(a, '\n'), pieces(b, '\n'));
    &&& x.len() == y.len()
    &&& forall|r: int| 0 <= r < x.len() ==> trimmed(#[trigger] x[r]) == trimmed(y[r])
    &&& ending(a) == ending(b)
}

/// Two trees that find the same changes of nesting in each row put the rows at
/// the same nesting.
proof fn lemma_same_rows(
    a: Seq<char>,
    first: Seq<NodeView>,
    b: Seq<char>,
    second: Seq<NodeView>,
    n: int,
    r: int,
)
    requires
        forall|q: int| 0 <= q < n ==> #[trigger] row_changes(a, first, q) == row_changes(b, second, q),
        r <= n,
    ensures
        row_nesting(a, first, r) == row_nesting(b, second, r),
    decreases r,
{
    if r > 0 {
        lemma_same_rows(a, first, b, second, n, r - 1);
        assert(row_changes(a, first, r - 1) == row_changes(b, second, r - 1));
    }
}

/// White space at the ends of lines, the indentation among it, has no
/// influence on the formatted text, with a grammar that parses both texts
/// without error and finds the same brackets and chains in their rows.
pub proof fn law_indentation_does_not_matter(
    language: tree_sitter::Language,
    a: Seq<char>,
    b: Seq<char>,
)
    requires
        same_contents(a, b),
        match (parsed(language, a), parsed(language, b)) {
            (Some(first), Some(second)) => !first.has_error && !second.has_error && forall|r: int|
                0 <= r < pieces(a, '\n').len() ==> #[trigger] row_changes(a, first.nodes, r)
                    == row_changes(b, second.nodes, r),
            _ => false,
        },
    ensures
        formatted_by(language, a) == formatted_by(language, b),
{
    let first = parsed(language, a)->0.nodes;
    let second = parsed(language, b)->0.nodes;
    let (x, y) = (pieces(a, '\n'), pieces(b, '\n'));
    let (p, q) = (encode_utf8(a), encode_utf8(b));
    let one = indented(x, marks_of(first, p), row_starts(p));
    let two = indented(y, marks_of(second, q), row_starts(q));
    assert forall|r: int| 0 <= r < one.len() implies #[trigger] one[r] == two[r] by {
        lemma_same_rows(a, first, b, second, x.len() as int, r);
        assert(trimmed(x[r]) == trimmed(y[r]));
        assert(one[r] == laid_out(x[r], row_nesting(a, first, r)));
        assert(two[r] == laid_out(y[r], row_nesting(b, second, r)));
    }
    assert(one =~= two);
}

/// The marks that decide indentation are in the order of their offsets.
pub proof fn law_marks_in_order(ms: Seq<Mark>)
    ensures
        forall|i: int, j: int|
            0 <= i < j < in_order(ms).len() ==> (#[trigger] in_order(ms)[i]).at <= (
            #[trigger] in_order(ms)[j]).at,
        in_order(ms).to_multiset() == ms.to_multiset(),
    decreases ms.len(),
{
    if ms.len() > 0 {
        law_marks_in_order(ms.drop_last());
        lemma_placed_in_order(in_order(ms.drop_last()), ms.last());
        vstd::seq_lib::to_multiset_build(ms.drop_last(), ms.last());
        assert(ms.drop_last().push(ms.last()) =~= ms);
    } else {
        assert(in_order(ms) =~= ms);
    }
}

proof fn lemma_placed_in_order(ms: Seq<Mark>, m: Mark)
    requires
        forall|i: int, j: int|
            0 <= i < j < ms.len() ==> (#[trigger] ms[i]).at <= (#[trigger] ms[j]).at,
    ensures
        forall|i: int, j: int|
            0 <= i < j < placed(ms, m).len() ==> (#[trigger] placed(ms, m)[i]).at <= (
            #[trigger] placed(ms, m)[j]).at,
        placed(ms, m).len() == ms.len() + 1,
        placed(ms, m).last().at == m.at || (ms.len() > 0 && placed(ms, m).last() == ms.last() && m.at
            <= ms.last().at),
        placed(ms, m).to_multiset() == ms.to_multiset().insert(m),
    decreases ms.len(),
{
    if ms.len() == 0 || ms.last().at <= m.at {
        vstd::seq_lib::to_multiset_build(ms, m);
        assert forall|i: int, j: int| 0 <= i < j < ms.push(m).len() implies (#[trigger] ms.push(
            m,
        )[i]).at <= (#[trigger] ms.push(m)[j]).at by {
            if j == ms.len() {
                assert(ms[i].at <= ms[ms.len() - 1].at);
            }
        }
    } else {
        let front = ms.drop_last();
        lemma_placed_in_order(front, m);
        let head = placed(front, m);
        assert(head.last().at <= ms.last().at) by {
            if front.len() > 0 {
                assert(ms[front.len() - 1].at <= ms[ms.len() - 1].at);
            }
        }
        assert forall|i: int, j: int| 0 <= i < j < placed(ms, m).len() implies (#[trigger] placed(
            ms,
            m,
        )[i]).at <= (#[trigger] placed(ms, m)[j]).at by {
            if j == head.len() && i < head.len() - 1 {
                assert(head[i].at <= head[head.len() - 1].at);
            }
        }
        vstd::seq_lib::to_multiset_build(front, ms.last());
        vstd::seq_lib::to_multiset_build(head, ms.last());
        assert(front.push(ms.last()) =~= ms);
        assert(front.to_multiset().insert(m).insert(ms.last()) =~= front.to_multiset().insert(
            ms.last(),
        ).insert(m));
    }
}

/// The levels of a nesting are strictly increasing and lie below its depth.
pub open spec fn well_nested(at: Nesting) -> bool {
    &&& forall|i: int, j: int|
        0 <= i < j < at.levels.len() ==> #[trigger] at.levels[i] < #[trigger] at.levels[j]
    &&& forall|i: int| 0 <= i < at.levels.len() ==> #[trigger] at.levels[i] < at.depth
}

proof fn lemma_below(levels: Seq<int>, depth: int)
    requires
        forall|i: int, j: int| 0 <= i < j < levels.len() ==> #[trigger] levels[i] < #[trigger] levels[j],
    ensures
        below(levels, depth).len() <= levels.len(),
        below(levels, depth) == levels.take(below(levels, depth).len() as int),
        forall|i: int| 0 <= i < below(levels, depth).len() ==> #[trigger] below(levels, depth)[i] < depth,
    decreases levels.len(),
{
    if levels.len() > 0 && levels.last() >= depth {
        lemma_below(levels.drop_last(), depth);
        let n = below(levels, depth).len() as int;
        assert(levels.drop_last().take(n) =~= levels.take(n));
    } else {
        assert(levels.take(levels.len() as int) =~= levels);
        assert forall|i: int| 0 <= i < levels.len() implies #[trigger] levels[i] < depth by {
            if i < levels.len() - 1 {
                assert(levels[i] < levels[levels.len() - 1]);
            }
        }
    }
}

proof fn lemma_within_nested(from: Nesting, ds: Seq<bool>, k: int)
    requires
        well_nested(from),
        0 <= k <= ds.len(),
    ensures
        well_nested(within(from, ds, k)),
        within(from, ds, k).levels.len() <= from.levels.len(),
        lowest(from, ds, k) <= within(from, ds, k).depth,
        forall|i: int|
            0 <= i < within(from, ds, k).levels.len() ==> #[trigger] within(from, ds, k).levels[i]
                < lowest(from, ds, k),
    decreases k,
{
    if k > 0 {
        lemma_within_nested(from, ds, k - 1);
        let at = within(from, ds, k - 1);
        let now = within(from, ds, k);
        if !ds[k - 1] {
            lemma_below(at.levels, at.depth - 1);
            assert forall|i: int| 0 <= i < now.levels.len() implies #[trigger] now.levels[i]
                < lowest(from, ds, k) by {
                assert(now.levels[i] == at.levels[i]);
            }
        }
    }
}

/// A row adds at most one level of indentation, however many brackets it
/// leaves open, and keeps the levels in order below the depth.
pub proof fn law_one_level(from: Nesting, ds: Seq<bool>)
    requires
        well_nested(from),
    ensures
        well_nested(after_row(from, ds)),
        after_row(from, ds).levels.len() <= from.levels.len() + 1,
{
    lemma_within_nested(from, ds, ds.len() as int);
}

/// At the beginning of every row the levels are in order below the depth: once
/// every bracket is closed again, nothing is indented.
pub proof fn law_levels(ms: Seq<Mark>, starts: Seq<usize>, r: int)
    ensures
        well_nested(nesting_at(ms, starts, r)),
    decreases r,
{
    if r > 0 {
        law_levels(ms, starts, r - 1);
        law_one_level(nesting_at(ms, starts, r - 1), deltas_in(ms, starts, r - 1));
    }
}

} // verus!
