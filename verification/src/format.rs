//! Formatting: indentation only.
//!
//! Every line is stripped of white space at its ends and indented with tabs, one
//! level per line that leaves brackets open. Runs of blank lines shrink to one;
//! blank lines at the ends of the file go. Nothing else changes.

use vstd::prelude::*;
use vstd::string::*;
use vstd::utf8::*;

use crate::grammar::parse;
use crate::grammar::parsed;
use crate::syntax::parent_of;
use crate::syntax::NodeView;
use crate::syntax::SyntaxTree;
use crate::syntax::TreeView;
use crate::text::chars;
use crate::text::find_text;
use crate::text::join;
use crate::text::joined;
use crate::text::pieces;
use crate::text::position_of;
use crate::text::push_chars;
use crate::text::push_text;
use crate::text::split_lines;
use crate::text::string;
use crate::text::texts;
use crate::text::trim;
use crate::text::trimmed;
use crate::text::without_tail;

verus! {

/// A bracket, or the start or end of a call chain: at a byte offset the
/// nesting goes one level in or out.
#[derive(Clone, Copy)]
pub struct Mark {
    pub at: usize,
    pub opens: bool,
}

pub open spec fn is_opener(kind: Seq<char>) -> bool {
    kind == "{"@ || kind == "["@ || kind == "("@
}

pub open spec fn is_closer(kind: Seq<char>) -> bool {
    kind == "}"@ || kind == "]"@ || kind == ")"@
}

/// The bracket tokens among the first `n` nodes, the root left out.
pub open spec fn brackets(ns: Seq<NodeView>, n: int) -> Seq<Mark>
    decreases n,
{
    if n <= 1 {
        seq![]
    } else {
        let rest = brackets(ns, n - 1);
        if is_opener(ns[n - 1].kind) {
            rest.push(Mark { at: ns[n - 1].start_byte, opens: true })
        } else if is_closer(ns[n - 1].kind) {
            rest.push(Mark { at: ns[n - 1].start_byte, opens: false })
        } else {
            rest
        }
    }
}

/// The offsets at which the rows begin that begin within the first `n` bytes.
pub open spec fn starts_upto(bytes: Seq<u8>, n: int) -> Seq<usize>
    decreases n,
{
    if n <= 0 {
        seq![0usize]
    } else if bytes[n - 1] == 10 {
        starts_upto(bytes, n - 1).push(n as usize)
    } else {
        starts_upto(bytes, n - 1)
    }
}

/// The offsets at which the rows of a text begin.
pub open spec fn row_starts(bytes: Seq<u8>) -> Seq<usize> {
    starts_upto(bytes, bytes.len() as int)
}

/// The offset of the line feed that ends row `r`, or of the end of the text.
pub open spec fn row_end(bytes: Seq<u8>, r: int) -> int {
    let starts = row_starts(bytes);
    if r + 1 < starts.len() {
        starts[r + 1] - 1
    } else {
        bytes.len() as int
    }
}

/// The row in which an offset lies: the last one that begins at or before it.
pub open spec fn row_of(starts: Seq<usize>, at: usize) -> int
    decreases starts.len(),
{
    if starts.len() <= 1 || starts.last() <= at {
        starts.len() - 1
    } else {
        row_of(starts.drop_last(), at)
    }
}

/// Whether only spaces and tabs stand in the row before node `i`.
pub open spec fn leads_row(bytes: Seq<u8>, n: NodeView) -> bool {
    let starts = row_starts(bytes);
    &&& n.start.row < starts.len()
    &&& starts[n.start.row as int] <= n.start_byte <= bytes.len()
    &&& forall|k: int|
        starts[n.start.row as int] <= k < n.start_byte ==> #[trigger] bytes[k] == 32 || bytes[k] == 9
}

/// Whether only spaces, tabs and carriage returns stand in the row behind node `i`.
pub open spec fn trails_row(bytes: Seq<u8>, n: NodeView) -> bool {
    &&& n.start.row < row_starts(bytes).len()
    &&& n.end_byte <= row_end(bytes, n.start.row as int)
    &&& forall|k: int|
        n.end_byte <= k < row_end(bytes, n.start.row as int) ==> #[trigger] bytes[k] == 32
            || bytes[k] == 9 || bytes[k] == 13
}

pub open spec fn is_link(kind: Seq<char>) -> bool {
    kind == "call_expression"@ || kind == "selector_expression"@
}

/// The outermost node reached from `i` through calls and selectors.
pub open spec fn outermost_link(ns: Seq<NodeView>, i: int) -> int
    decreases i,
{
    match parent_of(ns, i) {
        Some(p) => if 0 <= p < i && is_link(ns[p].kind) {
            outermost_link(ns, p)
        } else {
            i
        },
        None => i,
    }
}

/// The call chain that the dot at node `i` belongs to.
pub open spec fn chain_of(ns: Seq<NodeView>, i: int) -> int {
    match parent_of(ns, i) {
        Some(p) => outermost_link(ns, p),
        None => outermost_link(ns, i),
    }
}

/// Whether node `i` is a dot at the edge of its row whose chain has a row
/// after its first.
pub open spec fn breaks_chain(ns: Seq<NodeView>, bytes: Seq<u8>, i: int) -> bool {
    &&& ns[i].kind == "."@
    &&& leads_row(bytes, ns[i]) || trails_row(bytes, ns[i])
    &&& ns[chain_of(ns, i)].start.row + 1 < row_starts(bytes).len()
}

/// The extent of the chain that node `i` belongs to.
pub open spec fn chain_extent(ns: Seq<NodeView>, i: int) -> (usize, usize) {
    (ns[chain_of(ns, i)].start_byte, ns[chain_of(ns, i)].end_byte)
}

/// The extents of the broken chains among the first `n` nodes, each once.
pub open spec fn broken_chains(ns: Seq<NodeView>, bytes: Seq<u8>, n: int) -> Seq<(usize, usize)>
    decreases n,
{
    if n <= 1 {
        seq![]
    } else {
        let seen = broken_chains(ns, bytes, n - 1);
        if breaks_chain(ns, bytes, n - 1) && !seen.contains(chain_extent(ns, n - 1)) {
            seen.push(chain_extent(ns, n - 1))
        } else {
            seen
        }
    }
}

/// The marks of the broken chains among the first `n` nodes: each chain opens
/// at the end of its first row and closes at its own end.
pub open spec fn chain_marks(ns: Seq<NodeView>, bytes: Seq<u8>, n: int) -> Seq<Mark>
    decreases n,
{
    if n <= 1 {
        seq![]
    } else {
        let rest = chain_marks(ns, bytes, n - 1);
        if breaks_chain(ns, bytes, n - 1) && !broken_chains(ns, bytes, n - 1).contains(
            chain_extent(ns, n - 1),
        ) {
            let c = ns[chain_of(ns, n - 1)];
            rest.push(
                Mark { at: row_end(bytes, c.start.row as int) as usize, opens: true },
            ).push(Mark { at: c.end_byte, opens: false })
        } else {
            rest
        }
    }
}

/// `ms` with `m` put in behind every mark that is not behind it.
pub open spec fn placed(ms: Seq<Mark>, m: Mark) -> Seq<Mark>
    decreases ms.len(),
{
    if ms.len() == 0 || ms.last().at <= m.at {
        ms.push(m)
    } else {
        placed(ms.drop_last(), m).push(ms.last())
    }
}

/// `ms` in the order of their offsets; marks at one offset keep their order.
pub open spec fn in_order(ms: Seq<Mark>) -> Seq<Mark>
    decreases ms.len(),
{
    if ms.len() == 0 {
        seq![]
    } else {
        placed(in_order(ms.drop_last()), ms.last())
    }
}

/// All marks of a text, in order.
pub open spec fn marks_of(ns: Seq<NodeView>, bytes: Seq<u8>) -> Seq<Mark> {
    in_order(brackets(ns, ns.len() as int) + chain_marks(ns, bytes, ns.len() as int))
}

/// The changes of nesting in row `r`, from left to right.
pub open spec fn deltas_in(ms: Seq<Mark>, starts: Seq<usize>, r: int) -> Seq<bool>
    decreases ms.len(),
{
    if ms.len() == 0 {
        seq![]
    } else {
        let rest = deltas_in(ms.drop_last(), starts, r);
        if row_of(starts, ms.last().at) == r {
            rest.push(ms.last().opens)
        } else {
            rest
        }
    }
}

/// The nesting between two rows.
#[verifier::ext_equal]
pub struct Nesting {
    /// The number of open brackets.
    pub depth: int,
    /// For each level of indentation, the depth just below it.
    pub levels: Seq<int>,
}

/// `levels` without those at its end that are not below `depth`.
pub open spec fn below(levels: Seq<int>, depth: int) -> Seq<int>
    decreases levels.len(),
{
    if levels.len() > 0 && levels.last() >= depth {
        below(levels.drop_last(), depth)
    } else {
        levels
    }
}

/// The nesting after the first `k` changes of a row.
pub open spec fn within(from: Nesting, ds: Seq<bool>, k: int) -> Nesting
    decreases k,
{
    if k <= 0 {
        from
    } else {
        let at = within(from, ds, k - 1);
        if ds[k - 1] {
            Nesting { depth: at.depth + 1, levels: at.levels }
        } else {
            Nesting { depth: at.depth - 1, levels: below(at.levels, at.depth - 1) }
        }
    }
}

/// The lowest depth that a row reaches in its first `k` changes.
pub open spec fn lowest(from: Nesting, ds: Seq<bool>, k: int) -> int
    decreases k,
{
    if k <= 0 {
        from.depth
    } else if within(from, ds, k).depth < lowest(from, ds, k - 1) {
        within(from, ds, k).depth
    } else {
        lowest(from, ds, k - 1)
    }
}

/// The nesting after a row: a row that ends deeper than its lowest point
/// begins one level there, however many brackets it leaves open.
pub open spec fn after_row(from: Nesting, ds: Seq<bool>) -> Nesting {
    let at = within(from, ds, ds.len() as int);
    let low = lowest(from, ds, ds.len() as int);
    if at.depth > low && !(at.levels.len() > 0 && at.levels.last() == low) {
        Nesting { depth: at.depth, levels: at.levels.push(low) }
    } else {
        at
    }
}

/// The nesting at the beginning of row `r`.
pub open spec fn nesting_at(ms: Seq<Mark>, starts: Seq<usize>, r: int) -> Nesting
    decreases r,
{
    if r <= 0 {
        Nesting { depth: 0, levels: seq![] }
    } else {
        after_row(nesting_at(ms, starts, r - 1), deltas_in(ms, starts, r - 1))
    }
}

/// The number of closing brackets that a line begins with.
pub open spec fn leading_closers(s: Seq<char>) -> nat
    decreases s.len(),
{
    if s.len() > 0 && (s[0] == '}' || s[0] == ']' || s[0] == ')') {
        1 + leading_closers(s.drop_first())
    } else {
        0
    }
}

/// The number of levels below `depth`.
pub open spec fn levels_below(levels: Seq<int>, depth: int) -> nat
    decreases levels.len(),
{
    if levels.len() == 0 {
        0
    } else if levels.last() < depth {
        levels_below(levels.drop_last(), depth) + 1
    } else {
        levels_below(levels.drop_last(), depth)
    }
}

/// The indentation of a line: each closing bracket that it begins with takes
/// one level of nesting back.
pub open spec fn indent(content: Seq<char>, at: Nesting) -> nat {
    let depth = at.depth - leading_closers(content);
    levels_below(
        at.levels,
        if depth > 0 {
            depth
        } else {
            0
        },
    )
}

/// `n` tabs.
pub open spec fn tabs(n: nat) -> Seq<char> {
    Seq::new(n, |i: int| '\t')
}

/// A line, stripped and indented; a blank line is empty.
pub open spec fn laid_out(line: Seq<char>, at: Nesting) -> Seq<char> {
    let content = trimmed(line);
    if content.len() == 0 {
        seq![]
    } else {
        tabs(indent(content, at)) + content
    }
}

/// The lines of a text, each stripped and indented.
pub open spec fn indented(lines: Seq<Seq<char>>, ms: Seq<Mark>, starts: Seq<usize>) -> Seq<Seq<char>> {
    Seq::new(lines.len(), |r: int| laid_out(lines[r], nesting_at(ms, starts, r)))
}

/// `lines` without the blank ones at its start and behind another blank one.
pub open spec fn collapsed(lines: Seq<Seq<char>>) -> Seq<Seq<char>>
    decreases lines.len(),
{
    if lines.len() == 0 {
        seq![]
    } else {
        let kept = collapsed(lines.drop_last());
        if lines.last().len() == 0 && (kept.len() == 0 || kept.last().len() == 0) {
            kept
        } else {
            kept.push(lines.last())
        }
    }
}

/// The line ending of a text: the first kind that it could hold.
pub open spec fn ending(source: Seq<char>) -> Seq<char> {
    if position_of(source, "\r\n"@) is Some {
        "\r\n"@
    } else {
        "\n"@
    }
}

/// The text of the given lines, each followed by `nl`.
pub open spec fn assembled(lines: Seq<Seq<char>>, nl: Seq<char>) -> Seq<char> {
    if lines.len() == 0 {
        seq![]
    } else {
        joined(lines, nl) + nl
    }
}

/// The lines of the formatted text.
pub open spec fn formatted_lines(source: Seq<char>, ns: Seq<NodeView>) -> Seq<Seq<char>> {
    let bytes = encode_utf8(source);
    without_tail(
        collapsed(indented(pieces(source, '\n'), marks_of(ns, bytes), row_starts(bytes))),
    )
}

/// The formatted text: the source itself where its tree has an error.
pub open spec fn formatted(source: Seq<char>, tree: TreeView) -> Seq<char> {
    if tree.has_error {
        source
    } else {
        assembled(formatted_lines(source, tree.nodes), ending(source))
    }
}

/// The text as formatted with a grammar: the source itself where it does not
/// parse.
pub open spec fn formatted_by(language: tree_sitter::Language, source: Seq<char>) -> Seq<char> {
    match parsed(language, source) {
        Some(t) => formatted(source, t),
        None => source,
    }
}

/// Rows begin at increasing offsets within the text, the first at its start.
proof fn lemma_starts(bytes: Seq<u8>, n: int)
    requires
        0 <= n <= bytes.len() <= usize::MAX,
    ensures
        starts_upto(bytes, n).len() >= 1,
        starts_upto(bytes, n)[0] == 0,
        forall|i: int| 0 <= i < starts_upto(bytes, n).len() ==> #[trigger] starts_upto(bytes, n)[i] <= n,
        forall|i: int, j: int|
            0 <= i < j < starts_upto(bytes, n).len() ==> #[trigger] starts_upto(bytes, n)[i]
                < #[trigger] starts_upto(bytes, n)[j],
    decreases n,
{
    if n > 0 {
        lemma_starts(bytes, n - 1);
    }
}

/// The byte offsets at which the rows of a text begin.
fn line_starts(bytes: &[u8]) -> (r: Vec<usize>)
    ensures
        r@ == row_starts(bytes@),
        r@.len() >= 1,
        forall|i: int| 0 < i < r@.len() ==> 0 < #[trigger] r@[i] <= bytes@.len(),
{
    let mut out: Vec<usize> = vec![0usize];
    assert(out@ =~= starts_upto(bytes@, 0));
    let mut i: usize = 0;
    while i < bytes.len()
        invariant
            i <= bytes@.len(),
            out@ == starts_upto(bytes@, i as int),
        decreases bytes@.len() - i,
    {
        if bytes[i] == 10 {
            out.push(i + 1);
        }
        i += 1;
    }
    proof {
        lemma_starts(bytes@, bytes@.len() as int);
    }
    out
}

/// The brackets among the nodes of a tree.
fn collect_delimiters(tree: &SyntaxTree) -> (r: Vec<Mark>)
    ensures
        r@ == brackets(tree@.nodes, tree@.nodes.len() as int),
{
    let mut out: Vec<Mark> = Vec::new();
    let n = tree.nodes.len();
    if n == 0 {
        return out;
    }
    let mut i: usize = 1;
    while i < n
        invariant
            1 <= i <= n,
            n == tree.nodes@.len(),
            out@ == brackets(tree@.nodes, i as int),
        decreases n - i,
    {
        let at = tree.nodes[i].start_byte;
        if tree.is(i, "{") || tree.is(i, "[") || tree.is(i, "(") {
            out.push(Mark { at, opens: true });
        } else if tree.is(i, "}") || tree.is(i, "]") || tree.is(i, ")") {
            out.push(Mark { at, opens: false });
        }
        i += 1;
    }
    out
}

/// Whether only spaces and tabs stand in its row before node `i`.
#[verifier::loop_isolation(false)]
fn is_leading(tree: &SyntaxTree, bytes: &[u8], starts: &Vec<usize>, i: usize) -> (r: bool)
    requires
        tree.has(i),
        starts@ == row_starts(bytes@),
    ensures
        r == leads_row(bytes@, tree@.nodes[i as int]),
{
    let row = tree.nodes[i].start.row;
    let end = tree.nodes[i].start_byte;
    if row >= starts.len() || starts[row] > end || end > bytes.len() {
        return false;
    }
    let mut k: usize = starts[row];
    while k < end
        invariant
            starts@[row as int] <= k <= end <= bytes@.len(),
            row < starts@.len(),
            forall|j: int|
                starts@[row as int] <= j < k ==> #[trigger] bytes@[j] == 32 || bytes@[j] == 9,
        decreases end - k,
    {
        if bytes[k] != 32 && bytes[k] != 9 {
            assert(!(bytes@[k as int] == 32 || bytes@[k as int] == 9));
            return false;
        }
        k += 1;
    }
    true
}

/// Whether only spaces, tabs and carriage returns stand in its row behind node `i`.
#[verifier::loop_isolation(false)]
fn is_trailing(tree: &SyntaxTree, bytes: &[u8], starts: &Vec<usize>, i: usize) -> (r: bool)
    requires
        tree.has(i),
        starts@ == row_starts(bytes@),
        forall|i: int| 0 < i < starts@.len() ==> 0 < #[trigger] starts@[i] <= bytes@.len(),
    ensures
        r == trails_row(bytes@, tree@.nodes[i as int]),
{
    let row = tree.nodes[i].start.row;
    if row >= starts.len() {
        return false;
    }
    let end = if row < starts.len() - 1 {
        starts[row + 1] - 1
    } else {
        bytes.len()
    };
    assert(end == row_end(bytes@, row as int));
    let from = tree.nodes[i].end_byte;
    if from > end {
        return false;
    }
    let mut k: usize = from;
    while k < end
        invariant
            from <= k <= end <= bytes@.len(),
            forall|j: int|
                from <= j < k ==> #[trigger] bytes@[j] == 32 || bytes@[j] == 9 || bytes@[j] == 13,
        decreases end - k,
    {
        if bytes[k] != 32 && bytes[k] != 9 && bytes[k] != 13 {
            assert(!(bytes@[k as int] == 32 || bytes@[k as int] == 9 || bytes@[k as int] == 13));
            return false;
        }
        k += 1;
    }
    true
}

/// The call chain that the dot at node `i` belongs to.
fn chain_root(tree: &SyntaxTree, i: usize) -> (r: usize)
    requires
        tree.has(i),
    ensures
        r == chain_of(tree@.nodes, i as int),
        r <= i,
{
    let mut at: usize = match tree.parent(i) {
        Some(p) => p,
        None => i,
    };
    loop
        invariant
            at <= i < tree.nodes@.len(),
            outermost_link(tree@.nodes, at as int) == chain_of(tree@.nodes, i as int),
        decreases at,
    {
        match tree.parent(at) {
            Some(p) => {
                if tree.is(p, "call_expression") || tree.is(p, "selector_expression") {
                    at = p;
                } else {
                    return at;
                }
            },
            None => {
                return at;
            },
        }
    }
}

/// Whether `extent` is among `seen`.
fn is_seen(seen: &Vec<(usize, usize)>, extent: (usize, usize)) -> (r: bool)
    ensures
        r == seen@.contains(extent),
{
    let mut i: usize = 0;
    while i < seen.len()
        invariant
            i <= seen@.len(),
            forall|k: int| 0 <= k < i ==> seen@[k] != extent,
        decreases seen@.len() - i,
    {
        if seen[i].0 == extent.0 && seen[i].1 == extent.1 {
            assert(seen@[i as int] == extent);
            return true;
        }
        assert(seen@[i as int] != extent);
        i += 1;
    }
    false
}

/// The marks of the call chains that go over several rows.
fn collect_chain_indents(tree: &SyntaxTree, bytes: &[u8], starts: &Vec<usize>) -> (r: Vec<Mark>)
    requires
        starts@ == row_starts(bytes@),
        starts@.len() >= 1,
        forall|i: int| 0 < i < starts@.len() ==> 0 < #[trigger] starts@[i] <= bytes@.len(),
    ensures
        r@ == chain_marks(tree@.nodes, bytes@, tree@.nodes.len() as int),
{
    let mut out: Vec<Mark> = Vec::new();
    let mut seen: Vec<(usize, usize)> = Vec::new();
    let n = tree.nodes.len();
    if n == 0 {
        return out;
    }
    let mut i: usize = 1;
    while i < n
        invariant
            1 <= i <= n,
            n == tree.nodes@.len(),
            starts@ == row_starts(bytes@),
            starts@.len() >= 1,
            forall|i: int| 0 < i < starts@.len() ==> 0 < #[trigger] starts@[i] <= bytes@.len(),
            seen@ == broken_chains(tree@.nodes, bytes@, i as int),
            out@ == chain_marks(tree@.nodes, bytes@, i as int),
        decreases n - i,
    {
        if tree.is(i, ".") && (is_leading(tree, bytes, starts, i) || is_trailing(
            tree,
            bytes,
            starts,
            i,
        )) {
            let c = chain_root(tree, i);
            let row = tree.nodes[c].start.row;
            let extent = (tree.nodes[c].start_byte, tree.nodes[c].end_byte);
            if row < starts.len() - 1 {
                assert(breaks_chain(tree@.nodes, bytes@, i as int));
                if !is_seen(&seen, extent) {
                    assert(0 < starts@[row + 1]);
                    seen.push(extent);
                    out.push(Mark { at: starts[row + 1] - 1, opens: true });
                    out.push(Mark { at: tree.nodes[c].end_byte, opens: false });
                }
            }
        }
        i += 1;
    }
    out
}

/// Where [`placed`] puts a mark.
proof fn lemma_placed(ms: Seq<Mark>, m: Mark, k: int)
    requires
        0 <= k <= ms.len(),
        k == 0 || ms[k - 1].at <= m.at,
        forall|j: int| k <= j < ms.len() ==> (#[trigger] ms[j]).at > m.at,
    ensures
        placed(ms, m) == ms.insert(k, m),
    decreases ms.len(),
{
    if k == ms.len() {
        assert(ms.insert(k, m) =~= ms.push(m));
    } else {
        assert(ms.last().at > m.at);
        lemma_placed(ms.drop_last(), m, k);
        assert(ms.drop_last().insert(k, m).push(ms.last()) =~= ms.insert(k, m));
    }
}

/// Puts marks in the order of their offsets.
fn sort_marks(ms: &Vec<Mark>) -> (r: Vec<Mark>)
    ensures
        r@ == in_order(ms@),
{
    let mut out: Vec<Mark> = Vec::new();
    let mut i: usize = 0;
    assert(ms@.take(0) =~= seq![]);
    while i < ms.len()
        invariant
            i <= ms@.len(),
            out@ == in_order(ms@.take(i as int)),
        decreases ms@.len() - i,
    {
        let m = ms[i];
        let mut k: usize = out.len();
        while k > 0 && out[k - 1].at > m.at
            invariant
                k <= out@.len(),
                forall|j: int| k <= j < out@.len() ==> (#[trigger] out@[j]).at > m.at,
            decreases k,
        {
            k -= 1;
        }
        proof {
            lemma_placed(out@, m, k as int);
            assert(ms@.take(i + 1).drop_last() =~= ms@.take(i as int));
        }
        out.insert(k, m);
        i += 1;
    }
    assert(ms@.take(ms@.len() as int) =~= ms@);
    out
}

/// What [`row_of`] finds.
proof fn lemma_row_of(starts: Seq<usize>, at: usize)
    requires
        starts.len() >= 1,
    ensures
        0 <= row_of(starts, at) < starts.len(),
    decreases starts.len(),
{
    if starts.len() > 1 && starts.last() > at {
        lemma_row_of(starts.drop_last(), at);
    }
}

/// The row in which an offset lies.
fn find_row(starts: &Vec<usize>, at: usize) -> (r: usize)
    requires
        starts@.len() >= 1,
    ensures
        r == row_of(starts@, at),
        r < starts@.len(),
{
    let mut n: usize = starts.len();
    assert(starts@.take(n as int) =~= starts@);
    while n > 1 && starts[n - 1] > at
        invariant
            1 <= n <= starts@.len(),
            row_of(starts@, at) == row_of(starts@.take(n as int), at),
        decreases n,
    {
        assert(starts@.take(n as int).drop_last() =~= starts@.take(n - 1));
        assert(starts@.take(n as int).last() == starts@[n - 1]);
        n -= 1;
    }
    assert(starts@.take(n as int).last() == starts@[n - 1]);
    n - 1
}

/// Sorts the changes of nesting by row.
fn row_deltas(ms: &Vec<Mark>, starts: &Vec<usize>) -> (r: Vec<Vec<bool>>)
    requires
        starts@.len() >= 1,
    ensures
        r@.len() == starts@.len(),
        forall|k: int| 0 <= k < r@.len() ==> (#[trigger] r@[k])@ == deltas_in(ms@, starts@, k),
{
    let mut out: Vec<Vec<bool>> = Vec::new();
    let mut i: usize = 0;
    while i < starts.len()
        invariant
            i <= starts@.len(),
            out@.len() == i,
            forall|k: int| 0 <= k < i ==> (#[trigger] out@[k])@ == Seq::<bool>::empty(),
        decreases starts@.len() - i,
    {
        out.push(Vec::new());
        i += 1;
    }
    let mut j: usize = 0;
    assert(ms@.take(0) =~= seq![]);
    while j < ms.len()
        invariant
            j <= ms@.len(),
            starts@.len() >= 1,
            out@.len() == starts@.len(),
            forall|k: int|
                0 <= k < out@.len() ==> (#[trigger] out@[k])@ == deltas_in(
                    ms@.take(j as int),
                    starts@,
                    k,
                ),
        decreases ms@.len() - j,
    {
        let row = find_row(starts, ms[j].at);
        let ghost before = out@;
        out[row].push(ms[j].opens);
        proof {
            assert(ms@.take(j + 1).drop_last() =~= ms@.take(j as int));
            assert(ms@.take(j + 1).last() == ms@[j as int]);
            assert forall|k: int| 0 <= k < out@.len() implies (#[trigger] out@[k])@ == deltas_in(
                ms@.take(j + 1),
                starts@,
                k,
            ) by {
                assert(before[k]@ == deltas_in(ms@.take(j as int), starts@, k));
                if k != row {
                    assert(out@[k] == before[k]);
                }
            }
        }
        j += 1;
    }
    assert(ms@.take(ms@.len() as int) =~= ms@);
    out
}

/// No change of nesting lies in a row that there is not.
proof fn lemma_no_row(ms: Seq<Mark>, starts: Seq<usize>, r: int)
    requires
        1 <= starts.len() <= r,
    ensures
        deltas_in(ms, starts, r) == Seq::<bool>::empty(),
    decreases ms.len(),
{
    if ms.len() > 0 {
        lemma_no_row(ms.drop_last(), starts, r);
        lemma_row_of(starts, ms.last().at);
    }
}

/// The number of changes of nesting in the rows before `r`.
spec fn changes_before(ms: Seq<Mark>, starts: Seq<usize>, r: int) -> nat
    decreases r,
{
    if r <= 0 {
        0
    } else {
        changes_before(ms, starts, r - 1) + deltas_in(ms, starts, r - 1).len()
    }
}

/// Each mark is a change in one row.
proof fn lemma_changes_step(ms: Seq<Mark>, starts: Seq<usize>, r: int)
    requires
        ms.len() > 0,
    ensures
        changes_before(ms, starts, r) == changes_before(ms.drop_last(), starts, r) + (if 0
            <= row_of(starts, ms.last().at) < r {
            1nat
        } else {
            0nat
        }),
    decreases r,
{
    if r > 0 {
        lemma_changes_step(ms, starts, r - 1);
    }
}

/// There are no more changes than marks.
proof fn lemma_changes(ms: Seq<Mark>, starts: Seq<usize>, r: int)
    ensures
        changes_before(ms, starts, r) <= ms.len(),
    decreases ms.len(),
{
    if ms.len() > 0 {
        lemma_changes(ms.drop_last(), starts, r);
        lemma_changes_step(ms, starts, r);
    } else {
        lemma_no_changes(ms, starts, r);
    }
}

proof fn lemma_no_changes(ms: Seq<Mark>, starts: Seq<usize>, r: int)
    requires
        ms.len() == 0,
    ensures
        changes_before(ms, starts, r) == 0,
    decreases r,
{
    if r > 0 {
        lemma_no_changes(ms, starts, r - 1);
    }
}

/// Each change moves the depth by one.
proof fn lemma_within(from: Nesting, ds: Seq<bool>, k: int)
    requires
        0 <= k <= ds.len(),
    ensures
        from.depth - k <= within(from, ds, k).depth <= from.depth + k,
    decreases k,
{
    if k > 0 {
        lemma_within(from, ds, k - 1);
    }
}

/// The depth never exceeds the number of marks.
proof fn lemma_depth(ms: Seq<Mark>, starts: Seq<usize>, r: int)
    ensures
        -changes_before(ms, starts, r) <= nesting_at(ms, starts, r).depth <= changes_before(
            ms,
            starts,
            r,
        ),
    decreases r,
{
    if r > 0 {
        lemma_depth(ms, starts, r - 1);
        let ds = deltas_in(ms, starts, r - 1);
        lemma_within(nesting_at(ms, starts, r - 1), ds, ds.len() as int);
    }
}

/// The running state of [`nesting_at`].
struct Nest {
    depth: i128,
    levels: Vec<i128>,
}

spec fn depths(levels: Seq<i128>) -> Seq<int> {
    levels.map_values(|d: i128| d as int)
}

impl View for Nest {
    type V = Nesting;

    closed spec fn view(&self) -> Nesting {
        Nesting { depth: self.depth as int, levels: depths(self.levels@) }
    }
}

impl Nest {
    /// Drops the levels that are not below the depth.
    fn close(&mut self)
        ensures
            final(self).depth == old(self).depth,
            depths(final(self).levels@) == below(depths(old(self).levels@), old(self).depth as int),
    {
        loop
            invariant
                self.depth == old(self).depth,
                below(depths(self.levels@), self.depth as int) == below(
                    depths(old(self).levels@),
                    self.depth as int,
                ),
            decreases self.levels.len(),
        {
            let n = self.levels.len();
            if n == 0 || self.levels[n - 1] < self.depth {
                return;
            }
            assert(depths(self.levels@).drop_last() =~= depths(
                self.levels@.subrange(0, n - 1),
            ));
            let _ = self.levels.pop();
        }
    }

    /// Goes past one row with the given changes.
    fn advance(&mut self, ds: &Vec<bool>)
        requires
            -usize::MAX <= old(self).depth <= usize::MAX,
        ensures
            final(self)@ == after_row(old(self)@, ds@),
    {
        let mut low: i128 = self.depth;
        let mut i: usize = 0;
        while i < ds.len()
            invariant
                i <= ds@.len(),
                -usize::MAX <= old(self).depth <= usize::MAX,
                self@ == within(old(self)@, ds@, i as int),
                low == lowest(old(self)@, ds@, i as int),
            decreases ds@.len() - i,
        {
            proof {
                lemma_within(old(self)@, ds@, i as int);
            }
            if ds[i] {
                self.depth = self.depth + 1;
            } else {
                self.depth = self.depth - 1;
                self.close();
            }
            if self.depth < low {
                low = self.depth;
            }
            i += 1;
        }
        let n = self.levels.len();
        if self.depth > low && !(n > 0 && self.levels[n - 1] == low) {
            assert(depths(self.levels@.push(low)) =~= depths(self.levels@).push(low as int));
            self.levels.push(low);
        }
    }

    /// The indentation of a line that begins here.
    fn indent(&self, content: &[char]) -> (r: usize)
        ensures
            r == indent(content@, self@),
    {
        let mut lead: usize = 0;
        assert(content@.skip(0) =~= content@);
        while lead < content.len() && (content[lead] == '}' || content[lead] == ']'
            || content[lead] == ')')
            invariant
                lead <= content@.len(),
                leading_closers(content@) == lead + leading_closers(content@.skip(lead as int)),
            decreases content@.len() - lead,
        {
            assert(content@.skip(lead as int).drop_first() =~= content@.skip(lead + 1));
            lead += 1;
        }
        let depth: i128 = if self.depth > lead as i128 {
            self.depth - lead as i128
        } else {
            0
        };
        let mut count: usize = 0;
        let mut i: usize = 0;
        let ghost levels = self@.levels;
        assert(levels.take(0) =~= seq![]);
        while i < self.levels.len()
            invariant
                count <= i <= self.levels@.len(),
                levels == depths(self.levels@),
                count == levels_below(levels.take(i as int), depth as int),
            decreases self.levels@.len() - i,
        {
            assert(levels.take(i + 1).drop_last() =~= levels.take(i as int));
            assert(levels.take(i + 1).last() == self.levels@[i as int]);
            if self.levels[i] < depth {
                count += 1;
            }
            i += 1;
        }
        assert(levels.take(levels.len() as int) =~= levels);
        count
    }
}

/// One line, stripped and indented.
fn lay_out(line: &[char], at: &Nest) -> (r: Vec<char>)
    ensures
        r@ == laid_out(line@, at@),
{
    let content = trim(line);
    let mut out: Vec<char> = Vec::new();
    if content.len() == 0 {
        return out;
    }
    let n = at.indent(content);
    let mut i: usize = 0;
    while i < n
        invariant
            i <= n,
            out@ == tabs(i as nat),
        decreases n - i,
    {
        out.push('\t');
        i += 1;
    }
    push_chars(&mut out, content);
    out
}

/// The lines of a text, each indented, with blank ones dropped at the ends and
/// behind one another.
#[verifier::loop_isolation(false)]
fn reindent(lines: &Vec<&[char]>, ms: &Vec<Mark>, starts: &Vec<usize>) -> (r: Vec<Vec<char>>)
    requires
        starts@.len() >= 1,
    ensures
        texts(r@) == without_tail(
            collapsed(indented(lines@.map_values(|t: &[char]| t@), ms@, starts@)),
        ),
{
    let ghost all = indented(lines@.map_values(|t: &[char]| t@), ms@, starts@);
    let deltas = row_deltas(ms, starts);
    let none: Vec<bool> = Vec::new();
    let mut at = Nest { depth: 0, levels: Vec::new() };
    let mut out: Vec<Vec<char>> = Vec::new();
    assert(at@ =~= nesting_at(ms@, starts@, 0));
    assert(texts(out@) =~= collapsed(all.take(0)));
    let mut r: usize = 0;
    while r < lines.len()
        invariant
            r <= lines@.len(),
            at@ == nesting_at(ms@, starts@, r as int),
            texts(out@) == collapsed(all.take(r as int)),
        decreases lines@.len() - r,
    {
        proof {
            lemma_depth(ms@, starts@, r as int);
            lemma_changes(ms@, starts@, r as int);
            assert(ms.len() == ms@.len());
        }
        let line = lay_out(lines[r], &at);
        assert(line@ == all[r as int]);
        assert(all.take(r + 1).drop_last() =~= all.take(r as int));
        assert(all.take(r + 1).last() == line@);
        let n = out.len();
        assert(texts(out@).len() == n);
        assert(n > 0 ==> texts(out@).last() == out@[n - 1]@);
        if !(line.len() == 0 && (n == 0 || out[n - 1].len() == 0)) {
            let ghost before = out@;
            out.push(line);
            assert(texts(out@) =~= texts(before).push(all[r as int]));
        }
        if r < deltas.len() {
            at.advance(&deltas[r]);
        } else {
            proof {
                lemma_no_row(ms@, starts@, r as int);
            }
            at.advance(&none);
        }
        r += 1;
    }
    assert(all.take(all.len() as int) =~= all);
    loop
        invariant
            without_tail(texts(out@)) == without_tail(collapsed(all)),
        decreases out@.len(),
    {
        let n = out.len();
        if n == 0 || out[n - 1].len() > 0 {
            return out;
        }
        assert(texts(out@).last() == out@[n - 1]@);
        assert(texts(out@).drop_last() =~= texts(out@.subrange(0, n - 1)));
        let _ = out.pop();
    }
}

/// Formats `source`, whose syntax tree is `tree`. A text with a syntax error
/// stays as it is.
pub fn format_with_tree(source: &str, tree: &SyntaxTree) -> (r: String)
    ensures
        r@ == formatted(source@, tree@),
{
    if tree.has_error {
        return source.to_string();
    }
    let bytes = source.as_bytes();
    let starts = line_starts(bytes);
    let mut ms = collect_delimiters(tree);
    let mut more = collect_chain_indents(tree, bytes, &starts);
    ms.append(&mut more);
    let ms = sort_marks(&ms);
    let text = chars(source);
    let lines = split_lines(&text);
    let lines = reindent(&lines, &ms, &starts);
    if lines.len() == 0 {
        return String::new();
    }
    let nl = if find_text(&text, "\r\n").is_some() {
        "\r\n"
    } else {
        "\n"
    };
    let mut out = join(&lines, nl);
    push_text(&mut out, nl);
    string(&out)
}

/// Formats `source`. A text that does not parse, or not without error, stays as
/// it is.
pub fn format(source: &str, language: &tree_sitter::Language) -> (r: String)
    ensures
        r@ == formatted_by(*language, source@),
{
    match parse(language, source) {
        Some(tree) => format_with_tree(source, &tree),
        None => source.to_string(),
    }
}

} // verus!
