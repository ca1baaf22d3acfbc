//! What the formatter does with each line, said of the brackets and chains
//! that are open where the line begins.

use vstd::prelude::*;
use vstd::string::*;
use vstd::utf8::*;

use crate::format::below;
use crate::format::brackets;
use crate::format::broken_chains;
use crate::format::chain_extent;
use crate::format::chain_marks;
use crate::format::chain_of;
use crate::format::collapsed;
use crate::format::deltas_in;
use crate::format::ending;
use crate::format::formatted_lines;
use crate::format::indented;
use crate::format::leading_closers;
use crate::format::levels_below;
use crate::format::lowest;
use crate::format::marks_of;
use crate::format::nesting_at;
use crate::format::outermost_link;
use crate::format::row_end;
use crate::format::row_of;
use crate::format::row_starts;
use crate::format::starts_upto;
use crate::format::tabs;
use crate::format::within;
use crate::format::Mark;
use crate::format::Nesting;
use crate::format_laws::kept_rows;
use crate::format_laws::law_marks_in_order;
use crate::format_laws::lemma_kept;
use crate::format_laws::lemma_laid_out;
use crate::format_laws::lemma_line;
use crate::format_laws::lemma_without_tail;
use crate::format_laws::row_nesting;
use crate::format_laws::rows_kept;
use crate::syntax::parent_of;
use crate::syntax::parent_upto;
use crate::syntax::NodeView;
use crate::text::pieces;
use crate::text::trimmed;
use crate::text::without_tail;
use crate::text_facts::lemma_position_of_pair;

verus! {

/// The number of line feeds among the first `n` bytes.
pub open spec fn feeds_before(bytes: Seq<u8>, n: int) -> int
    decreases n,
{
    if n <= 0 {
        0
    } else if bytes[n - 1] == 10 {
        feeds_before(bytes, n - 1) + 1
    } else {
        feeds_before(bytes, n - 1)
    }
}

/// The rows of the brackets that are open before row `r`, given all brackets
/// in the order of the text: an opening one adds its row, a closing one takes
/// the last away.
pub open spec fn open_before(ms: Seq<Mark>, bytes: Seq<u8>, r: int) -> Seq<int>
    decreases ms.len(),
{
    if ms.len() == 0 {
        seq![]
    } else {
        let rest = open_before(ms.drop_last(), bytes, r);
        let row = feeds_before(bytes, ms.last().at as int);
        if row >= r {
            rest
        } else if ms.last().opens {
            rest.push(row)
        } else if rest.len() > 0 {
            rest.drop_last()
        } else {
            rest
        }
    }
}

/// The number of closing brackets before row `r` that close nothing.
pub open spec fn stray_before(ms: Seq<Mark>, bytes: Seq<u8>, r: int) -> int
    decreases ms.len(),
{
    if ms.len() == 0 {
        0
    } else {
        let rest = stray_before(ms.drop_last(), bytes, r);
        let row = feeds_before(bytes, ms.last().at as int);
        if row < r && !ms.last().opens && open_before(ms.drop_last(), bytes, r).len() == 0 {
            rest + 1
        } else {
            rest
        }
    }
}

/// The number of different rows in a list in which equal ones stand together.
pub open spec fn different(rows: Seq<int>) -> nat
    decreases rows.len(),
{
    if rows.len() == 0 {
        0
    } else if rows.len() == 1 || rows[rows.len() - 2] != rows.last() {
        different(rows.drop_last()) + 1
    } else {
        different(rows.drop_last())
    }
}

/// The marks of a text: its brackets and broken call chains, in the order of
/// the text.
pub open spec fn text_marks(source: Seq<char>, ns: Seq<NodeView>) -> Seq<Mark> {
    marks_of(ns, encode_utf8(source))
}

/// The rows that opened what is still open where row `r` of a text begins.
pub open spec fn open_rows(source: Seq<char>, ns: Seq<NodeView>, r: int) -> Seq<int> {
    open_before(text_marks(source, ns), encode_utf8(source), r)
}

/// Whether a line begins with a closing bracket.
pub open spec fn begins_closing(content: Seq<char>) -> bool {
    content.len() > 0 && (content[0] == '}' || content[0] == ']' || content[0] == ')')
}

/// The open rows, one row of changes at a time.
spec fn opened(rows: Seq<int>, ds: Seq<bool>, r: int) -> Seq<int>
    decreases ds.len(),
{
    if ds.len() == 0 {
        rows
    } else {
        let rest = opened(rows, ds.drop_last(), r);
        if ds.last() {
            rest.push(r)
        } else if rest.len() > 0 {
            rest.drop_last()
        } else {
            rest
        }
    }
}

spec fn stray(rows: Seq<int>, ds: Seq<bool>, r: int) -> int
    decreases ds.len(),
{
    if ds.len() == 0 {
        0
    } else {
        stray(rows, ds.drop_last(), r) + (if !ds.last() && opened(rows, ds.drop_last(), r).len()
            == 0 {
            1int
        } else {
            0int
        })
    }
}

spec fn open_at(ms: Seq<Mark>, starts: Seq<usize>, r: int) -> Seq<int>
    decreases r,
{
    if r <= 0 {
        seq![]
    } else {
        opened(open_at(ms, starts, r - 1), deltas_in(ms, starts, r - 1), r - 1)
    }
}

spec fn stray_at(ms: Seq<Mark>, starts: Seq<usize>, r: int) -> int
    decreases r,
{
    if r <= 0 {
        0
    } else {
        stray_at(ms, starts, r - 1) + stray(
            open_at(ms, starts, r - 1),
            deltas_in(ms, starts, r - 1),
            r - 1,
        )
    }
}

/// The depths at which the rows of a list begin.
spec fn begins(rows: Seq<int>, base: int) -> Seq<int>
    decreases rows.len(),
{
    if rows.len() == 0 {
        seq![]
    } else if rows.len() == 1 || rows[rows.len() - 2] != rows.last() {
        begins(rows.drop_last(), base).push(base + rows.len() - 1)
    } else {
        begins(rows.drop_last(), base)
    }
}

proof fn lemma_begins(rows: Seq<int>, base: int)
    ensures
        begins(rows, base).len() == different(rows),
        forall|i: int|
            0 <= i < begins(rows, base).len() ==> #[trigger] begins(rows, base)[i] < base
                + rows.len(),
    decreases rows.len(),
{
    if rows.len() > 0 {
        lemma_begins(rows.drop_last(), base);
    }
}

proof fn lemma_below_keeps(levels: Seq<int>, depth: int)
    requires
        forall|i: int| 0 <= i < levels.len() ==> #[trigger] levels[i] < depth,
    ensures
        below(levels, depth) == levels,
{
    if levels.len() > 0 {
        assert(levels[levels.len() - 1] < depth);
    }
}

/// One row of changes: what is left of the rows before, how many of this row
/// are open, and the depth below them all.
spec fn mid(rows: Seq<int>, base: int, ds: Seq<bool>, k: int) -> (Seq<int>, nat, int)
    decreases k,
{
    if k <= 0 {
        (rows, 0, base)
    } else {
        let (o, m, b) = mid(rows, base, ds, k - 1);
        if ds[k - 1] {
            (o, m + 1, b)
        } else if m > 0 {
            (o, (m - 1) as nat, b)
        } else if o.len() > 0 {
            (o.drop_last(), 0, b)
        } else {
            (o, 0, b - 1)
        }
    }
}

spec fn times(r: int, m: nat) -> Seq<int> {
    Seq::new(m, |i: int| r)
}

proof fn lemma_mid(from: Nesting, rows: Seq<int>, base: int, ds: Seq<bool>, r: int, k: int)
    requires
        from.levels == begins(rows, base),
        from.depth == base + rows.len(),
        0 <= k <= ds.len(),
    ensures
        ({
            let (o, m, b) = mid(rows, base, ds, k);
            &&& within(from, ds, k).depth == b + o.len() + m
            &&& within(from, ds, k).levels == begins(o, b)
            &&& lowest(from, ds, k) == b + o.len()
            &&& o.len() <= rows.len() && o == rows.take(o.len() as int)
            &&& opened(rows, ds.take(k), r) == o + times(r, m)
            &&& b == base - stray(rows, ds.take(k), r)
        }),
    decreases k,
{
    if k == 0 {
        assert(ds.take(0) =~= seq![]);
        assert(rows + times(r, 0) =~= rows);
        assert(rows.take(rows.len() as int) =~= rows);
    } else {
        lemma_mid(from, rows, base, ds, r, k - 1);
        let (o, m, b) = mid(rows, base, ds, k - 1);
        let (o1, m1, b1) = mid(rows, base, ds, k);
        assert(ds.take(k).drop_last() =~= ds.take(k - 1));
        assert(ds.take(k).last() == ds[k - 1]);
        lemma_begins(o, b);
        if ds[k - 1] {
            assert((o + times(r, m)).push(r) =~= o + times(r, m + 1));
        } else if m > 0 {
            assert((o + times(r, m)).drop_last() =~= o + times(r, (m - 1) as nat));
            lemma_below_keeps(begins(o, b), b + o.len() + m - 1);
        } else if o.len() > 0 {
            let o2 = o.drop_last();
            assert(o + times(r, 0) =~= o);
            assert(o2 + times(r, 0) =~= o2);
            lemma_begins(o2, b);
            lemma_below_keeps(begins(o2, b), b + o2.len());
            assert(begins(o, b).len() > begins(o2, b).len() ==> begins(o, b).drop_last() =~= begins(
                o2,
                b,
            ));
            assert(o2 =~= rows.take(o2.len() as int));
        } else {
            assert(o + times(r, 0) =~= o);
            assert(begins(o, b) =~= seq![]);
        }
    }
}

proof fn lemma_begins_more(o: Seq<int>, b: int, r: int, m: nat)
    requires
        m > 0,
        o.len() > 0 ==> o.last() != r,
    ensures
        begins(o + times(r, m), b) == begins(o, b).push(b + o.len()),
    decreases m,
{
    let all = o + times(r, m);
    assert(all.drop_last() =~= o + times(r, (m - 1) as nat));
    if m == 1 {
        assert(all.drop_last() =~= o);
        assert(all.last() == r);
        if o.len() > 0 {
            assert(all[all.len() - 2] == o.last());
        }
    } else {
        lemma_begins_more(o, b, r, (m - 1) as nat);
        assert(all[all.len() - 2] == r);
    }
}

/// The nesting is that of the open rows.
proof fn lemma_nesting_is_open(ms: Seq<Mark>, starts: Seq<usize>, r: int)
    ensures
        nesting_at(ms, starts, r).levels == begins(
            open_at(ms, starts, r),
            -stray_at(ms, starts, r),
        ),
        nesting_at(ms, starts, r).depth == open_at(ms, starts, r).len() - stray_at(ms, starts, r),
        stray_at(ms, starts, r) >= 0,
        forall|i: int|
            0 <= i < open_at(ms, starts, r).len() ==> #[trigger] open_at(ms, starts, r)[i] < r,
    decreases r,
{
    if r > 0 {
        let q = r - 1;
        lemma_nesting_is_open(ms, starts, q);
        let from = nesting_at(ms, starts, q);
        let rows = open_at(ms, starts, q);
        let base = -stray_at(ms, starts, q);
        let ds = deltas_in(ms, starts, q);
        let n = ds.len() as int;
        lemma_mid(from, rows, base, ds, q, n);
        assert(ds.take(n) =~= ds);
        let (o, m, b) = mid(rows, base, ds, n);
        lemma_begins(o, b);
        lemma_stray(rows, ds, q);
        if m > 0 {
            if o.len() > 0 {
                assert(o.last() == rows[o.len() - 1]);
            }
            lemma_begins_more(o, b, q, m);
        } else {
            assert(o + times(q, 0) =~= o);
        }
        assert forall|i: int| 0 <= i < (o + times(q, m)).len() implies #[trigger] (o + times(
            q,
            m,
        ))[i] < r by {
            if i < o.len() {
                assert((o + times(q, m))[i] == rows[i]);
            }
        }
    } else {
        assert(nesting_at(ms, starts, r).levels =~= begins(open_at(ms, starts, r), 0));
    }
}

proof fn lemma_stray(rows: Seq<int>, ds: Seq<bool>, r: int)
    ensures
        stray(rows, ds, r) >= 0,
    decreases ds.len(),
{
    if ds.len() > 0 {
        lemma_stray(rows, ds.drop_last(), r);
    }
}

/// Rows begin at the start of a text and behind each line feed.
pub proof fn law_rows_begin_behind_feeds(bytes: Seq<u8>, n: int)
    requires
        0 <= n <= bytes.len() <= usize::MAX,
    ensures
        starts_upto(bytes, n).len() == feeds_before(bytes, n) + 1,
        starts_upto(bytes, n)[0] == 0,
        forall|i: int|
            0 < i < starts_upto(bytes, n).len() ==> 0 < #[trigger] starts_upto(bytes, n)[i] <= n
                && bytes[starts_upto(bytes, n)[i] - 1] == 10 && feeds_before(
                bytes,
                starts_upto(bytes, n)[i] as int,
            ) == i,
    decreases n,
{
    if n > 0 {
        law_rows_begin_behind_feeds(bytes, n - 1);
        lemma_feeds_monotone(bytes, 0, n - 1);
    }
}

proof fn lemma_feeds_monotone(bytes: Seq<u8>, a: int, b: int)
    requires
        a <= b,
    ensures
        0 <= feeds_before(bytes, a) <= feeds_before(bytes, b),
    decreases b,
{
    if b > 0 {
        if a < b {
            lemma_feeds_monotone(bytes, a, b - 1);
        } else {
            lemma_feeds_monotone(bytes, a - 1, b - 1);
        }
    }
}

proof fn lemma_row_of_starts(starts: Seq<usize>, at: usize)
    requires
        starts.len() >= 1,
    ensures
        0 <= row_of(starts, at) < starts.len(),
        row_of(starts, at) > 0 ==> starts[row_of(starts, at)] <= at,
        forall|k: int| row_of(starts, at) < k < starts.len() ==> #[trigger] starts[k] > at,
    decreases starts.len(),
{
    if starts.len() > 1 && starts.last() > at {
        lemma_row_of_starts(starts.drop_last(), at);
        assert forall|k: int| row_of(starts, at) < k < starts.len() implies #[trigger] starts[k]
            > at by {
            if k < starts.len() - 1 {
                assert(starts.drop_last()[k] == starts[k]);
            }
        }
    }
}

proof fn lemma_start_reached(bytes: Seq<u8>, n: int, at: int)
    requires
        0 <= at <= n <= bytes.len() <= usize::MAX,
    ensures
        feeds_before(bytes, at) < starts_upto(bytes, n).len(),
        starts_upto(bytes, n)[feeds_before(bytes, at)] <= at,
        forall|k: int|
            feeds_before(bytes, at) < k < starts_upto(bytes, n).len() ==> #[trigger] starts_upto(
                bytes,
                n,
            )[k] > at,
    decreases n,
{
    law_rows_begin_behind_feeds(bytes, n);
    lemma_feeds_monotone(bytes, 0, at);
    if n > at {
        lemma_start_reached(bytes, n - 1, at);
        law_rows_begin_behind_feeds(bytes, n - 1);
    } else if n > 0 {
        law_rows_begin_behind_feeds(bytes, n - 1);
        lemma_start_reached(bytes, n - 1, n - 1);
    }
}

/// A mark lies in the row whose number is that of the line feeds before it.
pub proof fn law_row_of_offset(bytes: Seq<u8>, at: usize)
    requires
        at <= bytes.len() <= usize::MAX,
    ensures
        row_of(row_starts(bytes), at) == feeds_before(bytes, at as int),
{
    let starts = row_starts(bytes);
    lemma_start_reached(bytes, bytes.len() as int, at as int);
    lemma_feeds_monotone(bytes, 0, at as int);
    lemma_row_of_starts(starts, at);
    let a = row_of(starts, at);
    let b = feeds_before(bytes, at as int);
    if a < b {
        assert(starts[b] > at);
    } else if a > b {
        assert(starts[a] > at);
    }
}

/// What the last mark adds to the changes of the rows.
proof fn lemma_open_last(ms: Seq<Mark>, starts: Seq<usize>, q: int, r: int)
    requires
        ms.len() > 0,
        row_of(starts, ms.last().at) == q,
        0 <= q,
        forall|k: int| q < k ==> #[trigger] deltas_in(ms, starts, k) == Seq::<bool>::empty(),
        forall|k: int|
            q < k ==> #[trigger] deltas_in(ms.drop_last(), starts, k) == Seq::<bool>::empty(),
    ensures
        r <= q ==> open_at(ms, starts, r) == open_at(ms.drop_last(), starts, r) && stray_at(
            ms,
            starts,
            r,
        ) == stray_at(ms.drop_last(), starts, r),
        r > q ==> ({
            let rest = open_at(ms.drop_last(), starts, r);
            &&& open_at(ms, starts, r) == (if ms.last().opens {
                rest.push(q)
            } else if rest.len() > 0 {
                rest.drop_last()
            } else {
                rest
            })
            &&& stray_at(ms, starts, r) == stray_at(ms.drop_last(), starts, r) + (if !ms.last().opens
                && rest.len() == 0 {
                1int
            } else {
                0int
            })
        }),
    decreases r,
{
    if r > 0 {
        lemma_open_last(ms, starts, q, r - 1);
        let front = ms.drop_last();
        if r - 1 < q {
            assert(deltas_in(ms, starts, r - 1) == deltas_in(front, starts, r - 1));
        } else if r - 1 == q {
            let ds = deltas_in(front, starts, q);
            assert(deltas_in(ms, starts, q) == ds.push(ms.last().opens));
            assert(ds.push(ms.last().opens).drop_last() =~= ds);
        } else {
            assert(deltas_in(ms, starts, r - 1) == Seq::<bool>::empty());
            assert(deltas_in(front, starts, r - 1) == Seq::<bool>::empty());
        }
    }
}

proof fn lemma_no_later_changes(ms: Seq<Mark>, starts: Seq<usize>, q: int, k: int)
    requires
        forall|i: int| 0 <= i < ms.len() ==> row_of(starts, (#[trigger] ms[i]).at) <= q,
        q < k,
    ensures
        deltas_in(ms, starts, k) == Seq::<bool>::empty(),
    decreases ms.len(),
{
    if ms.len() > 0 {
        let front = ms.drop_last();
        assert forall|i: int| 0 <= i < front.len() implies row_of(starts, (#[trigger] front[i]).at)
            <= q by {
            assert(front[i] == ms[i]);
        }
        lemma_no_later_changes(front, starts, q, k);
        assert(ms[ms.len() - 1] == ms.last());
    }
}

/// Going through the marks row by row is going through them in order.
proof fn lemma_open_in_order(ms: Seq<Mark>, bytes: Seq<u8>, r: int)
    requires
        bytes.len() <= usize::MAX,
        forall|i: int| 0 <= i < ms.len() ==> (#[trigger] ms[i]).at <= bytes.len(),
        forall|i: int, j: int|
            0 <= i < j < ms.len() ==> (#[trigger] ms[i]).at <= (#[trigger] ms[j]).at,
    ensures
        open_at(ms, row_starts(bytes), r) == open_before(ms, bytes, r),
        stray_at(ms, row_starts(bytes), r) == stray_before(ms, bytes, r),
    decreases ms.len(),
{
    let starts = row_starts(bytes);
    if ms.len() == 0 {
        lemma_nothing_open(ms, starts, r);
    } else {
        let front = ms.drop_last();
        assert forall|i: int| 0 <= i < front.len() implies (#[trigger] front[i]).at <= bytes.len() by {
            assert(front[i] == ms[i]);
        }
        assert forall|i: int, j: int| 0 <= i < j < front.len() implies (#[trigger] front[i]).at <= (
        #[trigger] front[j]).at by {
            assert(front[i] == ms[i] && front[j] == ms[j]);
        }
        lemma_open_in_order(front, bytes, r);
        let last = ms[ms.len() - 1];
        let q = row_of(starts, last.at);
        law_row_of_offset(bytes, last.at);
        lemma_feeds_monotone(bytes, 0, last.at as int);
        assert forall|i: int| 0 <= i < ms.len() implies row_of(starts, (#[trigger] ms[i]).at) <= q by {
            law_row_of_offset(bytes, ms[i].at);
            if i < ms.len() - 1 {
                assert(ms[i].at <= last.at);
            }
            lemma_feeds_monotone(bytes, ms[i].at as int, last.at as int);
        }
        assert forall|i: int| 0 <= i < front.len() implies row_of(starts, (#[trigger] front[i]).at)
            <= q by {
            assert(front[i] == ms[i]);
        }
        assert forall|k: int| q < k implies #[trigger] deltas_in(ms, starts, k) == Seq::<
            bool,
        >::empty() by {
            lemma_no_later_changes(ms, starts, q, k);
        }
        assert forall|k: int| q < k implies #[trigger] deltas_in(front, starts, k) == Seq::<
            bool,
        >::empty() by {
            lemma_no_later_changes(front, starts, q, k);
        }
        lemma_open_last(ms, starts, q, r);
    }
}

proof fn lemma_nothing_open(ms: Seq<Mark>, starts: Seq<usize>, r: int)
    requires
        ms.len() == 0,
    ensures
        open_at(ms, starts, r) == Seq::<int>::empty(),
        stray_at(ms, starts, r) == 0,
    decreases r,
{
    if r > 0 {
        lemma_nothing_open(ms, starts, r - 1);
    }
}

/// Whether the marks of a text lie within it.
pub open spec fn marks_within(source: Seq<char>, ns: Seq<NodeView>) -> bool {
    let bytes = encode_utf8(source);
    &&& bytes.len() <= usize::MAX
    &&& forall|i: int|
        0 <= i < text_marks(source, ns).len() ==> (#[trigger] text_marks(source, ns)[i]).at
            <= bytes.len()
}

proof fn lemma_row_nesting(source: Seq<char>, ns: Seq<NodeView>, r: int)
    requires
        marks_within(source, ns),
    ensures
        ({
            let stray = stray_before(text_marks(source, ns), encode_utf8(source), r);
            &&& stray >= 0
            &&& row_nesting(source, ns, r).levels == begins(open_rows(source, ns, r), -stray)
            &&& row_nesting(source, ns, r).depth == open_rows(source, ns, r).len() - stray
        }),
{
    let bytes = encode_utf8(source);
    let ms = text_marks(source, ns);
    law_marks_in_order(
        brackets(ns, ns.len() as int) + chain_marks(ns, bytes, ns.len() as int),
    );
    lemma_open_in_order(ms, bytes, r);
    lemma_nesting_is_open(ms, row_starts(bytes), r);
}

proof fn lemma_levels_all(levels: Seq<int>, depth: int)
    requires
        forall|i: int| 0 <= i < levels.len() ==> #[trigger] levels[i] < depth,
    ensures
        levels_below(levels, depth) == levels.len(),
    decreases levels.len(),
{
    if levels.len() > 0 {
        let front = levels.drop_last();
        assert forall|i: int| 0 <= i < front.len() implies #[trigger] front[i] < depth by {
            assert(front[i] == levels[i]);
        }
        assert(levels[levels.len() - 1] < depth);
        lemma_levels_all(front, depth);
    }
}

proof fn lemma_levels_some(rows: Seq<int>, n: int)
    requires
        0 <= n <= rows.len(),
    ensures
        levels_below(begins(rows, 0), n) == different(rows.take(n)),
    decreases rows.len(),
{
    if n == rows.len() {
        assert(rows.take(n) =~= rows);
        lemma_begins(rows, 0);
        lemma_levels_all(begins(rows, 0), n);
    } else {
        let front = rows.drop_last();
        lemma_levels_some(front, n);
        assert(front.take(n) =~= rows.take(n));
        if rows.len() == 1 || rows[rows.len() - 2] != rows.last() {
            assert(begins(rows, 0).drop_last() =~= begins(front, 0));
        }
    }
}

/// A line that does not begin with a closing bracket is indented by one tab
/// for each row that opened something that is still open where the line
/// begins, whatever the line's own text is.
pub proof fn law_line_indentation(source: Seq<char>, ns: Seq<NodeView>, i: int)
    requires
        marks_within(source, ns),
        0 <= i < formatted_lines(source, ns).len(),
        trimmed(pieces(source, '\n')[rows_kept(source, ns)[i]]).len() > 0,
        !begins_closing(trimmed(pieces(source, '\n')[rows_kept(source, ns)[i]])),
    ensures
        ({
            let r = rows_kept(source, ns)[i];
            formatted_lines(source, ns)[i] == Seq::new(
                different(open_rows(source, ns, r)),
                |k: int| '\t',
            ) + trimmed(pieces(source, '\n')[r])
        }),
{
    let r = rows_kept(source, ns)[i];
    let content = trimmed(pieces(source, '\n')[r]);
    lemma_line(source, ns, i);
    lemma_row_nesting(source, ns, r);
    let at = row_nesting(source, ns, r);
    let stray = stray_before(text_marks(source, ns), encode_utf8(source), r);
    let rows = open_rows(source, ns, r);
    lemma_begins(rows, -stray);
    assert(leading_closers(content) == 0);
    let depth = if at.depth > 0 {
        at.depth
    } else {
        0
    };
    lemma_levels_all(at.levels, depth);
    assert(tabs(different(rows)) =~= Seq::new(different(rows), |k: int| '\t'));
}

proof fn lemma_leading_closers(content: Seq<char>, c: int)
    requires
        0 <= c <= content.len(),
        forall|j: int|
            0 <= j < c ==> #[trigger] content[j] == '}' || content[j] == ']' || content[j] == ')',
        c < content.len() ==> content[c] != '}' && content[c] != ']' && content[c] != ')',
    ensures
        leading_closers(content) == c,
    decreases c,
{
    if c > 0 {
        let rest = content.drop_first();
        assert(content[0] == '}' || content[0] == ']' || content[0] == ')');
        assert forall|j: int| 0 <= j < c - 1 implies #[trigger] rest[j] == '}' || rest[j] == ']'
            || rest[j] == ')' by {
            assert(rest[j] == content[j + 1]);
        }
        lemma_leading_closers(rest, c - 1);
    }
}

/// A line that begins with closing brackets is indented as if they were closed
/// before it: by one tab for each row that opened something that is open then.
pub proof fn law_closing_line_indentation(source: Seq<char>, ns: Seq<NodeView>, i: int, c: int)
    requires
        marks_within(source, ns),
        0 <= i < formatted_lines(source, ns).len(),
        ({
            let r = rows_kept(source, ns)[i];
            let content = trimmed(pieces(source, '\n')[r]);
            &&& content.len() > 0
            &&& 0 <= c <= content.len()
            &&& forall|j: int|
                0 <= j < c ==> #[trigger] content[j] == '}' || content[j] == ']' || content[j] == ')'
            &&& c < content.len() ==> content[c] != '}' && content[c] != ']' && content[c] != ')'
            &&& stray_before(text_marks(source, ns), encode_utf8(source), r) == 0
        }),
    ensures
        ({
            let r = rows_kept(source, ns)[i];
            let rows = open_rows(source, ns, r);
            let left = if c < rows.len() {
                rows.take(rows.len() - c)
            } else {
                seq![]
            };
            formatted_lines(source, ns)[i] == Seq::new(different(left), |k: int| '\t') + trimmed(
                pieces(source, '\n')[r],
            )
        }),
{
    let r = rows_kept(source, ns)[i];
    let content = trimmed(pieces(source, '\n')[r]);
    lemma_line(source, ns, i);
    lemma_row_nesting(source, ns, r);
    let rows = open_rows(source, ns, r);
    lemma_leading_closers(content, c);
    let n = if c < rows.len() {
        rows.len() - c
    } else {
        0
    };
    lemma_levels_some(rows, n);
    let left = if c < rows.len() {
        rows.take(rows.len() - c)
    } else {
        seq![]
    };
    assert(rows.take(n) =~= left);
    assert(tabs(different(left)) =~= Seq::new(different(left), |k: int| '\t'));
}

/// A row that only opens brackets puts what follows one level deeper, however
/// many it opens; a row without any changes nothing.
pub proof fn law_opening_row_adds_one(rows: Seq<int>, r: int, m: nat)
    requires
        forall|i: int| 0 <= i < rows.len() ==> #[trigger] rows[i] < r,
    ensures
        different(rows + Seq::new(m, |k: int| r)) == different(rows) + (if m > 0 {
            1int
        } else {
            0int
        }),
{
    lemma_begins(rows, 0);
    assert(Seq::new(m, |k: int| r) =~= times(r, m));
    if m > 0 {
        if rows.len() > 0 {
            assert(rows[rows.len() - 1] < r);
        }
        lemma_begins_more(rows, 0, r, m);
        lemma_begins(rows + times(r, m), 0);
    } else {
        assert(rows + times(r, 0) =~= rows);
    }
}

/// Whether node `i` is an opening bracket.
pub open spec fn opens(n: NodeView) -> bool {
    n.kind == "{"@ || n.kind == "["@ || n.kind == "("@
}

/// Whether node `i` is a closing bracket.
pub open spec fn closes(n: NodeView) -> bool {
    n.kind == "}"@ || n.kind == "]"@ || n.kind == ")"@
}

/// The number of brackets among the first `n` nodes, the root left out.
pub open spec fn count_brackets(ns: Seq<NodeView>, n: int) -> nat
    decreases n,
{
    if n <= 1 {
        0
    } else {
        count_brackets(ns, n - 1) + (if opens(ns[n - 1]) || closes(ns[n - 1]) {
            1nat
        } else {
            0nat
        })
    }
}

proof fn lemma_bracket_kinds()
    ensures
        "{"@ != "}"@,
        "{"@ != "]"@,
        "{"@ != ")"@,
        "["@ != "}"@,
        "["@ != "]"@,
        "["@ != ")"@,
        "("@ != "}"@,
        "("@ != "]"@,
        "("@ != ")"@,
{
    reveal_strlit("{");
    reveal_strlit("[");
    reveal_strlit("(");
    reveal_strlit("}");
    reveal_strlit("]");
    reveal_strlit(")");
    assert("{"@[0] == '{' && "["@[0] == '[' && "("@[0] == '(');
    assert("}"@[0] == '}' && "]"@[0] == ']' && ")"@[0] == ')');
}

/// Every bracket of the tree counts once, where it stands, and nothing else
/// counts as a bracket.
pub proof fn law_every_bracket_counts(ns: Seq<NodeView>, n: int)
    requires
        n <= ns.len(),
    ensures
        brackets(ns, n).len() == count_brackets(ns, n),
        forall|i: int|
            1 <= i < n && opens(#[trigger] ns[i]) ==> brackets(ns, n).contains(
                (Mark { at: ns[i].start_byte, opens: true }),
            ),
        forall|i: int|
            1 <= i < n && closes(#[trigger] ns[i]) ==> brackets(ns, n).contains(
                (Mark { at: ns[i].start_byte, opens: false }),
            ),
        forall|k: int|
            0 <= k < brackets(ns, n).len() ==> exists|i: int|
                1 <= i < n && (#[trigger] ns[i]).start_byte == (#[trigger] brackets(ns, n)[k]).at
                    && (if brackets(ns, n)[k].opens {
                    opens(ns[i])
                } else {
                    closes(ns[i])
                }),
    decreases n,
{
    if n > 1 {
        law_every_bracket_counts(ns, n - 1);
        lemma_bracket_kinds();
        let rest = brackets(ns, n - 1);
        let all = brackets(ns, n);
        assert forall|m: Mark| rest.contains(m) implies #[trigger] all.contains(m) by {
            let k = choose|k: int| 0 <= k < rest.len() && rest[k] == m;
            assert(all[k] == m);
        }
        let x = ns[n - 1];
        if opens(x) || closes(x) {
            assert(all.last() == (Mark { at: x.start_byte, opens: opens(x) }));
            assert(all.contains(all[all.len() - 1]));
        }
        assert forall|k: int| 0 <= k < all.len() implies exists|i: int|
            1 <= i < n && (#[trigger] ns[i]).start_byte == (#[trigger] all[k]).at && (if all[k].opens {
                opens(ns[i])
            } else {
                closes(ns[i])
            }) by {
            if k < rest.len() {
                assert(rest[k] == all[k]);
                let i = choose|i: int|
                    1 <= i < n - 1 && (#[trigger] ns[i]).start_byte == rest[k].at && (if rest[k].opens {
                        opens(ns[i])
                    } else {
                        closes(ns[i])
                    });
                assert(ns[i].start_byte == all[k].at);
            } else {
                assert(ns[n - 1].start_byte == all[k].at);
            }
        }
    }
}

/// Whether only the bytes for which `blank` holds stand in `bytes` from `a` to
/// `b`.
pub open spec fn only(bytes: Seq<u8>, a: int, b: int, blank: spec_fn(u8) -> bool) -> bool {
    forall|k: int| a <= k < b ==> blank(#[trigger] bytes[k])
}

/// Whether node `i` is a dot that comes first or last in its row.
pub open spec fn dot_at_edge(ns: Seq<NodeView>, bytes: Seq<u8>, i: int) -> bool {
    let starts = row_starts(bytes);
    let n = ns[i];
    let row = n.start.row as int;
    &&& n.kind == "."@
    &&& row < starts.len()
    &&& {
        ||| starts[row] <= n.start_byte <= bytes.len() && only(
            bytes,
            starts[row] as int,
            n.start_byte as int,
            |b: u8| b == 32 || b == 9,
        )
        ||| n.end_byte <= row_end(bytes, row) && only(
            bytes,
            n.end_byte as int,
            row_end(bytes, row),
            |b: u8| b == 32 || b == 9 || b == 13,
        )
    }
}

proof fn lemma_parent_before(ns: Seq<NodeView>, i: int, k: int)
    ensures
        parent_upto(ns, i, k) matches Some(p) ==> 0 <= p <= k,
    decreases k + 1,
{
    if k >= 0 {
        lemma_parent_before(ns, i, k - 1);
    }
}

proof fn lemma_outermost(ns: Seq<NodeView>, i: int)
    requires
        0 <= i,
    ensures
        0 <= outermost_link(ns, i) <= i,
        parent_of(ns, outermost_link(ns, i)) matches Some(q) ==> ns[q].kind != "call_expression"@
            && ns[q].kind != "selector_expression"@,
    decreases i,
{
    lemma_parent_before(ns, i, i - 1);
    if let Some(p) = parent_of(ns, i) {
        if ns[p].kind == "call_expression"@ || ns[p].kind == "selector_expression"@ {
            lemma_outermost(ns, p);
        }
    }
}

/// A dot's chain is as large as calls and selectors go: what it lies in is
/// neither.
pub proof fn law_chain_is_outermost(ns: Seq<NodeView>, i: int)
    requires
        0 <= i < ns.len(),
    ensures
        0 <= chain_of(ns, i) <= i,
        parent_of(ns, chain_of(ns, i)) matches Some(q) ==> ns[q].kind != "call_expression"@
            && ns[q].kind != "selector_expression"@,
{
    lemma_parent_before(ns, i, i - 1);
    if let Some(p) = parent_of(ns, i) {
        lemma_outermost(ns, p);
    } else {
        lemma_outermost(ns, i);
    }
}

/// A dot's chain is that of the node that it stands in, and a call or selector
/// that a node stands in belongs to the node's chain; anything else ends it.
pub proof fn law_chain_goes_through_links(ns: Seq<NodeView>, i: int)
    requires
        0 <= i < ns.len(),
    ensures
        chain_of(ns, i) == outermost_link(
            ns,
            match parent_of(ns, i) {
                Some(p) => p,
                None => i,
            },
        ),
        match parent_of(ns, i) {
            Some(q) => outermost_link(ns, i) == (if ns[q].kind == "call_expression"@ || ns[q].kind
                == "selector_expression"@ {
                outermost_link(ns, q)
            } else {
                i
            }),
            None => outermost_link(ns, i) == i,
        },
{
    lemma_parent_before(ns, i, i - 1);
}

/// Whether the two marks of a chain are among `ms`: it opens at the end of its
/// first row and closes at its own end.
pub open spec fn chain_marked(ms: Seq<Mark>, bytes: Seq<u8>, c: NodeView) -> bool {
    &&& ms.contains(
        (Mark { at: row_end(bytes, c.start.row as int) as usize, opens: true }),
    )
    &&& ms.contains((Mark { at: c.end_byte, opens: false }))
}

/// Whether the chain of node `i` goes on behind its first row.
pub open spec fn goes_on(ns: Seq<NodeView>, bytes: Seq<u8>, i: int) -> bool {
    ns[chain_of(ns, i)].start.row + 1 < row_starts(bytes).len()
}

proof fn lemma_dot_breaks(ns: Seq<NodeView>, bytes: Seq<u8>, i: int)
    ensures
        crate::format::breaks_chain(ns, bytes, i) <==> dot_at_edge(ns, bytes, i) && goes_on(
            ns,
            bytes,
            i,
        ),
{
    let n = ns[i];
    let starts = row_starts(bytes);
    let row = n.start.row as int;
    let lead = |b: u8| b == 32 || b == 9;
    let trail = |b: u8| b == 32 || b == 9 || b == 13;
    if row < starts.len() {
        if only(bytes, starts[row] as int, n.start_byte as int, lead) {
            assert forall|k: int| starts[row] <= k < n.start_byte implies #[trigger] bytes[k] == 32
                || bytes[k] == 9 by {
                assert(lead(bytes[k]));
            }
        }
        if crate::format::leads_row(bytes, n) {
            assert(only(bytes, starts[row] as int, n.start_byte as int, lead));
        }
        if only(bytes, n.end_byte as int, row_end(bytes, row), trail) {
            assert forall|k: int| n.end_byte <= k < row_end(bytes, row) implies #[trigger] bytes[k]
                == 32 || bytes[k] == 9 || bytes[k] == 13 by {
                assert(trail(bytes[k]));
            }
        }
        if crate::format::trails_row(bytes, n) {
            assert(only(bytes, n.end_byte as int, row_end(bytes, row), trail));
        }
    }
}

/// Every call chain with a dot at the edge of a row is marked, over one extent
/// once, and nothing else is.
pub proof fn law_every_broken_chain_counts(ns: Seq<NodeView>, bytes: Seq<u8>, n: int)
    requires
        n <= ns.len(),
    ensures
        forall|i: int|
            1 <= i < n && #[trigger] dot_at_edge(ns, bytes, i) && goes_on(ns, bytes, i) ==> exists|j: int|
                1 <= j <= i && #[trigger] dot_at_edge(ns, bytes, j) && chain_extent(ns, j)
                    == chain_extent(ns, i) && chain_marked(
                    chain_marks(ns, bytes, n),
                    bytes,
                    ns[chain_of(ns, j)],
                ),
        broken_chains(ns, bytes, n).no_duplicates(),
        chain_marks(ns, bytes, n).len() == 2 * broken_chains(ns, bytes, n).len(),
        forall|k: int|
            0 <= k < broken_chains(ns, bytes, n).len() ==> exists|j: int|
                1 <= j < n && #[trigger] dot_at_edge(ns, bytes, j) && goes_on(ns, bytes, j)
                    && chain_extent(ns, j) == #[trigger] broken_chains(ns, bytes, n)[k]
                    && chain_marked(chain_marks(ns, bytes, n), bytes, ns[chain_of(ns, j)]),
    decreases n,
{
    if n > 1 {
        let i = n - 1;
        law_every_broken_chain_counts(ns, bytes, i);
        lemma_dot_breaks(ns, bytes, i);
        let (seen, all_seen) = (broken_chains(ns, bytes, i), broken_chains(ns, bytes, n));
        let (rest, all) = (chain_marks(ns, bytes, i), chain_marks(ns, bytes, n));
        assert forall|m: Mark| rest.contains(m) implies #[trigger] all.contains(m) by {
            let k = choose|k: int| 0 <= k < rest.len() && rest[k] == m;
            assert(all[k] == m);
        }
        assert forall|c: NodeView| #[trigger] chain_marked(rest, bytes, c) implies chain_marked(
            all,
            bytes,
            c,
        ) by {}
        let extent = chain_extent(ns, i);
        let fresh = dot_at_edge(ns, bytes, i) && goes_on(ns, bytes, i) && !seen.contains(extent);
        if fresh {
            assert(all[all.len() - 2] == (Mark {
                at: row_end(bytes, ns[chain_of(ns, i)].start.row as int) as usize,
                opens: true,
            }));
            assert(all[all.len() - 1] == (Mark { at: ns[chain_of(ns, i)].end_byte, opens: false }));
            assert(chain_marked(all, bytes, ns[chain_of(ns, i)]));
            assert(all_seen == seen.push(extent));
        } else {
            assert(all_seen == seen);
            assert(all == rest);
        }
        assert forall|k: int| 0 <= k < all_seen.len() implies exists|j: int|
            1 <= j < n && #[trigger] dot_at_edge(ns, bytes, j) && goes_on(ns, bytes, j)
                && chain_extent(ns, j) == #[trigger] all_seen[k] && chain_marked(
                all,
                bytes,
                ns[chain_of(ns, j)],
            ) by {
            if k < seen.len() {
                assert(seen[k] == all_seen[k]);
                let j = choose|j: int|
                    1 <= j < i && #[trigger] dot_at_edge(ns, bytes, j) && goes_on(ns, bytes, j)
                        && chain_extent(ns, j) == seen[k] && chain_marked(
                        rest,
                        bytes,
                        ns[chain_of(ns, j)],
                    );
                assert(dot_at_edge(ns, bytes, j));
            } else {
                assert(dot_at_edge(ns, bytes, i));
            }
        }
        assert forall|p: int|
            1 <= p < n && #[trigger] dot_at_edge(ns, bytes, p) && goes_on(ns, bytes, p) implies exists|j: int|
            1 <= j <= p && #[trigger] dot_at_edge(ns, bytes, j) && chain_extent(ns, j)
                == chain_extent(ns, p) && chain_marked(all, bytes, ns[chain_of(ns, j)]) by {
            if p < i {
                let j = choose|j: int|
                    1 <= j <= p && #[trigger] dot_at_edge(ns, bytes, j) && chain_extent(ns, j)
                        == chain_extent(ns, p) && chain_marked(rest, bytes, ns[chain_of(ns, j)]);
                assert(dot_at_edge(ns, bytes, j));
            } else if fresh {
                assert(dot_at_edge(ns, bytes, i));
            } else {
                let k = choose|k: int| 0 <= k < seen.len() && seen[k] == extent;
                assert(seen[k] == extent);
                let j = choose|j: int|
                    1 <= j < i && #[trigger] dot_at_edge(ns, bytes, j) && goes_on(ns, bytes, j)
                        && chain_extent(ns, j) == seen[k] && chain_marked(
                        rest,
                        bytes,
                        ns[chain_of(ns, j)],
                    );
                assert(dot_at_edge(ns, bytes, j));
            }
        }
    }
}

/// The marks of a text are its brackets and the marks of its broken chains.
pub proof fn law_marks_are_brackets_and_chains(source: Seq<char>, ns: Seq<NodeView>)
    ensures
        text_marks(source, ns).to_multiset() == (brackets(ns, ns.len() as int) + chain_marks(
            ns,
            encode_utf8(source),
            ns.len() as int,
        )).to_multiset(),
        forall|i: int, j: int|
            0 <= i < j < text_marks(source, ns).len() ==> (#[trigger] text_marks(source, ns)[i]).at
                <= (#[trigger] text_marks(source, ns)[j]).at,
{
    law_marks_in_order(
        brackets(ns, ns.len() as int) + chain_marks(ns, encode_utf8(source), ns.len() as int),
    );
}

/// Whether row `r` of a text is not blank.
pub open spec fn written(source: Seq<char>, r: int) -> bool {
    trimmed(pieces(source, '\n')[r]).len() > 0
}

proof fn lemma_kept_rows(lines: Seq<Seq<char>>)
    ensures
        forall|r: int| #[trigger]
            kept_rows(lines).contains(r) <==> 0 <= r < lines.len() && (lines[r].len() > 0 || (r > 0
                && lines[r - 1].len() > 0)),
        kept_rows(lines).len() > 0 ==> 0 <= kept_rows(lines).last() < lines.len(),
        lines.len() > 0 && lines.last().len() > 0 ==> kept_rows(lines).len() > 0 && kept_rows(
            lines,
        ).last() == lines.len() - 1,
        lines.len() > 0 && lines.last().len() == 0 && kept_rows(lines).len() > 0 ==> (lines[kept_rows(
            lines,
        ).last()].len() == 0),
    decreases lines.len(),
{
    let all = kept_rows(lines);
    if lines.len() > 0 {
        let front = lines.drop_last();
        lemma_kept_rows(front);
        let kept = kept_rows(front);
        let n = lines.len() - 1;
        if kept.len() > 0 {
            assert(front[kept.last()] == lines[kept.last()]);
        }
        if front.len() > 0 {
            assert(front.last() == lines[n - 1]);
        }
        assert forall|r: int| #[trigger] all.contains(r) <==> 0 <= r < lines.len() && (lines[r].len()
            > 0 || (r > 0 && lines[r - 1].len() > 0)) by {
            if kept.contains(r) {
                let k = choose|k: int| 0 <= k < kept.len() && kept[k] == r;
                assert(all[k] == r);
            }
            if all.contains(r) && r != n {
                let k = choose|k: int| 0 <= k < all.len() && all[k] == r;
                assert(kept[k] == r);
            }
            if 0 <= r < n {
                assert(front[r] == lines[r]);
                if r > 0 {
                    assert(front[r - 1] == lines[r - 1]);
                }
            }
            if r == n {
                if all.len() > kept.len() {
                    assert(all[kept.len() as int] == n);
                }
                if all.contains(n) && all == kept {
                    let k = choose|k: int| 0 <= k < kept.len() && kept[k] == n;
                    assert(kept.contains(n));
                }
            }
        }
    } else {
        assert forall|r: int| #[trigger] all.contains(r) implies false by {}
    }
}

/// A row stays if it is not blank, or if it is the first blank one behind a row
/// that is not and comes before another; no other row stays, and the rows stay
/// in their order.
pub proof fn law_rows_that_stay(source: Seq<char>, ns: Seq<NodeView>, r: int)
    requires
        0 <= r < pieces(source, '\n').len(),
    ensures
        (exists|i: int|
            0 <= i < formatted_lines(source, ns).len() && #[trigger] rows_kept(source, ns)[i] == r)
            <==> written(source, r) || (r > 0 && written(source, r - 1) && exists|q: int|
            r < q < pieces(source, '\n').len() && #[trigger] written(source, q)),
        forall|i: int, j: int|
            0 <= i < j < formatted_lines(source, ns).len() ==> #[trigger] rows_kept(source, ns)[i]
                < #[trigger] rows_kept(source, ns)[j],
        forall|i: int|
            0 <= i < formatted_lines(source, ns).len() ==> ((#[trigger] formatted_lines(
                source,
                ns,
            )[i]).len() > 0 <==> written(source, rows_kept(source, ns)[i])),
{
    let bytes = encode_utf8(source);
    let cut = pieces(source, '\n');
    let all = indented(cut, marks_of(ns, bytes), row_starts(bytes));
    let kept = rows_kept(source, ns);
    let out = formatted_lines(source, ns);
    lemma_kept(all);
    lemma_kept_rows(all);
    lemma_without_tail(collapsed(all));
    assert forall|q: int| 0 <= q < all.len() implies ((#[trigger] all[q]).len() > 0 <==> written(
        source,
        q,
    )) by {
        lemma_laid_out(cut[q], row_nesting(source, ns, q));
    }
    assert forall|i: int| 0 <= i < out.len() implies ((#[trigger] out[i]).len() > 0 <==> written(
        source,
        kept[i],
    )) by {
        assert(out[i] == collapsed(all)[i]);
        assert(0 <= kept[i] < all.len());
    }
    let wanted = written(source, r) || (r > 0 && written(source, r - 1) && exists|q: int|
        r < q < cut.len() && #[trigger] written(source, q));
    if wanted {
        assert(all[r].len() > 0 || (r > 0 && all[r - 1].len() > 0)) by {
            assert(all[r].len() > 0 <==> written(source, r));
            if r > 0 {
                assert(all[r - 1].len() > 0 <==> written(source, r - 1));
            }
        }
        assert(kept.contains(r));
        let i = choose|i: int| 0 <= i < kept.len() && kept[i] == r;
        // A row that is not blank stands at or behind it.
        let q = if written(source, r) {
            r
        } else {
            choose|q: int| r < q < cut.len() && #[trigger] written(source, q)
        };
        assert(all[q].len() > 0);
        assert(kept.contains(q));
        let k = choose|k: int| 0 <= k < kept.len() && kept[k] == q;
        if k < i {
            assert(kept[k] < kept[i]);
        }
        lemma_tail_keeps(collapsed(all), k);
        assert(rows_kept(source, ns)[i] == r);
    }
    if exists|i: int| 0 <= i < out.len() && #[trigger] kept[i] == r {
        let i = choose|i: int| 0 <= i < out.len() && #[trigger] kept[i] == r;
        assert(kept.contains(r));
        assert(all[r].len() > 0 <==> written(source, r));
        if !written(source, r) {
            assert(all[r - 1].len() > 0 <==> written(source, r - 1));
            let last = out.len() - 1;
            assert(out.last().len() > 0);
            assert(out[last] == collapsed(all)[last]);
            assert(kept[last] < all.len());
            assert(written(source, kept[last]));
            assert(i != last);
            assert(kept[i] < kept[last]);
        }
    }
    assert forall|i: int, j: int| 0 <= i < j < out.len() implies #[trigger] kept[i]
        < #[trigger] kept[j] by {}
}

/// A line that is not blank is not among the blank ones at the end.
proof fn lemma_tail_keeps(lines: Seq<Seq<char>>, k: int)
    requires
        0 <= k < lines.len(),
        lines[k].len() > 0,
    ensures
        k < without_tail(lines).len(),
    decreases lines.len(),
{
    if lines.last().len() == 0 {
        assert(lines.drop_last()[k] == lines[k]);
        lemma_tail_keeps(lines.drop_last(), k);
    }
}

/// The lines of a formatted text end in a carriage return and a line feed if
/// and only if some line of the source does; else in a line feed.
pub proof fn law_line_ending(source: Seq<char>)
    ensures
        ending(source) == seq!['\r', '\n'] <==> exists|i: int|
            0 <= i < source.len() - 1 && #[trigger] source[i] == '\r' && source[i + 1] == '\n',
        ending(source) == seq!['\r', '\n'] || ending(source) == seq!['\n'],
{
    reveal_strlit("\r\n");
    reveal_strlit("\n");
    assert("\r\n"@ =~= seq!['\r', '\n']);
    assert("\n"@ =~= seq!['\n']);
    assert(seq!['\r', '\n'].len() != seq!['\n'].len());
    lemma_position_of_pair(source, "\r\n"@);
}

} // verus!
