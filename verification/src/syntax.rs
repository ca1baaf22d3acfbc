//! Syntax trees as plain values.
//!
//! A tree is the list of its nodes in the order in which they begin (a parent
//! before its children, children from left to right), each with its depth.
//! Order and depths together say who is whose child.

use vstd::prelude::*;
use vstd::string::*;
use vstd::utf8::*;

use crate::text::opt_view;
use crate::text::same_str;

verus! {

/// A place in a text: a row, and a column counted in bytes.
#[derive(Debug, Clone, Copy, PartialEq, Eq, Structural)]
pub struct Point {
    pub row: usize,
    pub column: usize,
}

impl Point {
    /// Whether this place comes before `other`.
    pub open spec fn before(self, other: Point) -> bool {
        self.row < other.row || (self.row == other.row && self.column < other.column)
    }

    /// Whether this place comes before `other`.
    pub fn lt(&self, other: &Point) -> (r: bool)
        ensures
            r == self.before(*other),
    {
        self.row < other.row || (self.row == other.row && self.column < other.column)
    }
}

/// A node of a syntax tree.
#[derive(Debug)]
pub struct Node {
    /// The grammar's name for this kind of node.
    pub kind: String,
    /// False for tokens that the grammar gives as literal text.
    pub named: bool,
    /// The field of the parent that this node fills.
    pub field: Option<String>,
    /// The number of ancestors.
    pub depth: usize,
    pub start_byte: usize,
    pub end_byte: usize,
    pub start: Point,
    pub end: Point,
}

/// What a [`Node`] holds.
pub struct NodeView {
    pub kind: Seq<char>,
    pub named: bool,
    pub field: Option<Seq<char>>,
    pub depth: usize,
    pub start_byte: usize,
    pub end_byte: usize,
    pub start: Point,
    pub end: Point,
}

impl View for Node {
    type V = NodeView;

    open spec fn view(&self) -> NodeView {
        NodeView {
            kind: self.kind@,
            named: self.named,
            field: opt_view(self.field),
            depth: self.depth,
            start_byte: self.start_byte,
            end_byte: self.end_byte,
            start: self.start,
            end: self.end,
        }
    }
}

/// A syntax tree.
#[derive(Debug)]
pub struct SyntaxTree {
    /// The nodes, in the order in which they begin.
    pub nodes: Vec<Node>,
    /// Whether the parse met a syntax error.
    pub has_error: bool,
}

/// What a [`SyntaxTree`] holds.
#[verifier::ext_equal]
pub struct TreeView {
    pub nodes: Seq<NodeView>,
    pub has_error: bool,
}

impl View for SyntaxTree {
    type V = TreeView;

    open spec fn view(&self) -> TreeView {
        TreeView { nodes: self.nodes@.map_values(|n: Node| n@), has_error: self.has_error }
    }
}

/// The children of `p` among the nodes from `j` on.
pub open spec fn kids_from(ns: Seq<NodeView>, p: int, j: int) -> Seq<int>
    decreases ns.len() - j,
{
    if j >= ns.len() || ns[j].depth <= ns[p].depth {
        seq![]
    } else if ns[j].depth == ns[p].depth + 1 {
        seq![j] + kids_from(ns, p, j + 1)
    } else {
        kids_from(ns, p, j + 1)
    }
}

/// The children of `p`, from left to right.
pub open spec fn kids(ns: Seq<NodeView>, p: int) -> Seq<int> {
    kids_from(ns, p, p + 1)
}

/// The first child of `p` in field `f` among the nodes from `j` on.
pub open spec fn field_from(ns: Seq<NodeView>, p: int, f: Seq<char>, j: int) -> Option<int>
    decreases ns.len() - j,
{
    if j >= ns.len() || ns[j].depth <= ns[p].depth {
        None
    } else if ns[j].depth == ns[p].depth + 1 && ns[j].field == Some(f) {
        Some(j)
    } else {
        field_from(ns, p, f, j + 1)
    }
}

/// The first child of `p` in field `f`.
pub open spec fn field_child(ns: Seq<NodeView>, p: int, f: Seq<char>) -> Option<int> {
    field_from(ns, p, f, p + 1)
}

/// The first child of `p` of the given kind among the nodes from `j` on.
pub open spec fn kind_from(ns: Seq<NodeView>, p: int, kind: Seq<char>, j: int) -> Option<int>
    decreases ns.len() - j,
{
    if j >= ns.len() || ns[j].depth <= ns[p].depth {
        None
    } else if ns[j].depth == ns[p].depth + 1 && ns[j].kind == kind {
        Some(j)
    } else {
        kind_from(ns, p, kind, j + 1)
    }
}

/// The first child of `p` of the given kind.
pub open spec fn kind_child(ns: Seq<NodeView>, p: int, kind: Seq<char>) -> Option<int> {
    kind_from(ns, p, kind, p + 1)
}

/// The first named child of `p` among the nodes from `j` on.
pub open spec fn named_from(ns: Seq<NodeView>, p: int, j: int) -> Option<int>
    decreases ns.len() - j,
{
    if j >= ns.len() || ns[j].depth <= ns[p].depth {
        None
    } else if ns[j].depth == ns[p].depth + 1 && ns[j].named {
        Some(j)
    } else {
        named_from(ns, p, j + 1)
    }
}

/// The first named child of `p`.
pub open spec fn named_child(ns: Seq<NodeView>, p: int) -> Option<int> {
    named_from(ns, p, p + 1)
}

/// The first node of the given kind from `j` on within the subtree of `i`.
pub open spec fn within_from(ns: Seq<NodeView>, i: int, kind: Seq<char>, j: int) -> Option<int>
    decreases ns.len() - j,
{
    if j >= ns.len() || (j > i && ns[j].depth <= ns[i].depth) {
        None
    } else if ns[j].kind == kind {
        Some(j)
    } else {
        within_from(ns, i, kind, j + 1)
    }
}

/// The first node of the given kind in the subtree of `i`, which begins with
/// `i` itself.
pub open spec fn first_within(ns: Seq<NodeView>, i: int, kind: Seq<char>) -> Option<int> {
    within_from(ns, i, kind, i)
}

/// The parent of `i`, looked for from `k` backwards.
pub open spec fn parent_upto(ns: Seq<NodeView>, i: int, k: int) -> Option<int>
    decreases k + 1,
{
    if k < 0 {
        None
    } else if ns[k].depth >= ns[i].depth {
        parent_upto(ns, i, k - 1)
    } else if ns[k].depth + 1 == ns[i].depth {
        Some(k)
    } else {
        None
    }
}

/// The parent of `i`: the nearest earlier node that is less deep.
pub open spec fn parent_of(ns: Seq<NodeView>, i: int) -> Option<int> {
    parent_upto(ns, i, i - 1)
}

/// The sibling before `i`, looked for from `k` backwards.
pub open spec fn sibling_upto(ns: Seq<NodeView>, i: int, k: int) -> Option<int>
    decreases k + 1,
{
    if k < 0 || ns[k].depth < ns[i].depth {
        None
    } else if ns[k].depth == ns[i].depth {
        Some(k)
    } else {
        sibling_upto(ns, i, k - 1)
    }
}

/// The sibling just before `i`.
pub open spec fn sibling_before(ns: Seq<NodeView>, i: int) -> Option<int> {
    sibling_upto(ns, i, i - 1)
}

/// Whether `n` lies wholly before the place `at`: an empty node must end
/// before it, any other may also end at it.
pub open spec fn ends_before(n: NodeView, at: Point) -> bool {
    n.end.before(at) || (n.end == at && n.start != n.end)
}

/// The first child of `p` from `j` on that does not lie before `at`.
pub open spec fn reaching_from(ns: Seq<NodeView>, p: int, at: Point, j: int) -> Option<int>
    decreases ns.len() - j,
{
    if j >= ns.len() || ns[j].depth <= ns[p].depth {
        None
    } else if ns[j].depth == ns[p].depth + 1 && !ends_before(ns[j], at) {
        Some(j)
    } else {
        reaching_from(ns, p, at, j + 1)
    }
}

/// The smallest node within `i` that spans the place `at`.
pub open spec fn smallest_within(ns: Seq<NodeView>, i: int, at: Point) -> int
    decreases ns.len() - i,
{
    match reaching_from(ns, i, at, i + 1) {
        Some(c) => if i < c < ns.len() && !at.before(ns[c].start) {
            smallest_within(ns, c, at)
        } else {
            i
        },
        None => i,
    }
}

/// The smallest node that spans the place `at`; the root where no other does.
pub open spec fn smallest_at(ns: Seq<NodeView>, at: Point) -> Option<int> {
    if ns.len() == 0 {
        None
    } else {
        Some(smallest_within(ns, 0, at))
    }
}

/// The part of `source` between two byte offsets, where both lie between
/// characters.
pub open spec fn part(source: Seq<char>, a: int, b: int) -> Option<Seq<char>> {
    let bytes = encode_utf8(source);
    if 0 <= a <= b <= bytes.len() && is_char_boundary(bytes, a) && is_char_boundary(bytes, b) {
        Some(decode_utf8(bytes.subrange(a, b)))
    } else {
        None
    }
}

/// The text of a node.
pub open spec fn text_of(source: Seq<char>, n: NodeView) -> Option<Seq<char>> {
    part(source, n.start_byte as int, n.end_byte as int)
}

/// The text of a node, empty where it has none.
pub open spec fn text_or_empty(source: Seq<char>, n: NodeView) -> Seq<char> {
    match text_of(source, n) {
        Some(t) => t,
        None => seq![],
    }
}

/// An optional index as an optional integer.
pub open spec fn index(i: Option<usize>) -> Option<int> {
    match i {
        Some(k) => Some(k as int),
        None => None,
    }
}

/// The views of a sequence of indices.
pub open spec fn indices(v: Seq<usize>) -> Seq<int> {
    v.map_values(|i: usize| i as int)
}

/// Cuts the part between two byte offsets out of `source`.
pub fn slice(source: &str, a: usize, b: usize) -> (r: Option<&str>)
    ensures
        match r {
            Some(t) => part(source@, a as int, b as int) == Some(t@),
            None => part(source@, a as int, b as int) is None,
        },
{
    let ghost bytes = encode_utf8(source@);
    if a > b || b > source.as_bytes().len() || !source.is_char_boundary(a) || !source.is_char_boundary(b) {
        return None;
    }
    let head = source.split_at(b).0;
    proof {
        encode_utf8_valid_utf8(source@);
        encode_utf8_valid_utf8(head@);
        if a < b {
            is_char_boundary_iff_not_is_continuation_byte(bytes, a as int);
            is_char_boundary_iff_not_is_continuation_byte(encode_utf8(head@), a as int);
        } else {
            is_char_boundary_start_end_of_seq(encode_utf8(head@));
        }
    }
    let tail = head.split_at(a).1;
    proof {
        encode_utf8_decode_utf8(tail@);
        assert(encode_utf8(tail@) =~= bytes.subrange(a as int, b as int));
    }
    Some(tail)
}

/// What [`kids_from`] lists: nodes one level below `p`, with nothing less deep
/// and no other child before them.
proof fn lemma_kid(ns: Seq<NodeView>, p: int, j: int, k: int)
    requires
        0 <= p < j,
        0 <= k < kids_from(ns, p, j).len(),
    ensures
        ({
            let all = kids_from(ns, p, j);
            let c = all[k];
            let from = if k == 0 {
                j
            } else {
                all[k - 1] + 1
            };
            &&& j <= from <= c < ns.len()
            &&& ns[c].depth == ns[p].depth + 1
            &&& forall|i: int| j <= i <= c ==> (#[trigger] ns[i]).depth > ns[p].depth
            &&& forall|i: int| from <= i < c ==> (#[trigger] ns[i]).depth > ns[c].depth
        }),
    decreases ns.len() - j,
{
    let all = kids_from(ns, p, j);
    let rest = kids_from(ns, p, j + 1);
    if ns[j].depth == ns[p].depth + 1 {
        if k > 0 {
            assert(all[k] == rest[k - 1]);
            lemma_kid(ns, p, j + 1, k - 1);
            if k > 1 {
                assert(all[k - 1] == rest[k - 2]);
            }
        }
    } else {
        lemma_kid(ns, p, j + 1, k);
    }
}

proof fn lemma_parent(ns: Seq<NodeView>, p: int, c: int, k: int)
    requires
        0 <= p <= k < c,
        ns[c].depth == ns[p].depth + 1,
        forall|i: int| p < i < c ==> (#[trigger] ns[i]).depth > ns[p].depth,
    ensures
        parent_upto(ns, c, k) == Some(p),
    decreases k,
{
    if k > p {
        assert(ns[k].depth > ns[p].depth);
        lemma_parent(ns, p, c, k - 1);
    }
}

proof fn lemma_sibling(ns: Seq<NodeView>, a: int, c: int, k: int)
    requires
        0 <= a <= k < c,
        ns[a].depth == ns[c].depth,
        forall|i: int| a < i < c ==> (#[trigger] ns[i]).depth > ns[c].depth,
    ensures
        sibling_upto(ns, c, k) == Some(a),
    decreases k,
{
    if k > a {
        assert(ns[k].depth > ns[c].depth);
        lemma_sibling(ns, a, c, k - 1);
    }
}

/// Whether a node spans the place `at`.
pub open spec fn spans(n: NodeView, at: Point) -> bool {
    !at.before(n.start) && !ends_before(n, at)
}

proof fn lemma_reaching(ns: Seq<NodeView>, p: int, at: Point, j: int)
    ensures
        reaching_from(ns, p, at, j) matches Some(c) ==> j <= c < ns.len() && !ends_before(ns[c], at),
    decreases ns.len() - j,
{
    if j < ns.len() && ns[j].depth > ns[p].depth && !(ns[j].depth == ns[p].depth + 1 && !ends_before(
        ns[j],
        at,
    )) {
        lemma_reaching(ns, p, at, j + 1);
    }
}

/// The smallest node at a place spans the place, unless it is the one that the
/// search began with; and the first of its children that does not lie before
/// the place begins behind it.
pub proof fn law_smallest_node_spans(ns: Seq<NodeView>, i: int, at: Point)
    requires
        0 <= i < ns.len(),
    ensures
        i <= smallest_within(ns, i, at) < ns.len(),
        smallest_within(ns, i, at) == i || spans(ns[smallest_within(ns, i, at)], at),
        ({
            let r = smallest_within(ns, i, at);
            reaching_from(ns, r, at, r + 1) matches Some(c) ==> at.before(ns[c].start)
        }),
    decreases ns.len() - i,
{
    lemma_reaching(ns, i, at, i + 1);
    if let Some(c) = reaching_from(ns, i, at, i + 1) {
        if !at.before(ns[c].start) {
            law_smallest_node_spans(ns, c, at);
        }
    }
}

/// A node is the parent of each of its children, and each child is the
/// sibling before the next.
pub proof fn law_children_and_parents(ns: Seq<NodeView>, p: int, k: int)
    requires
        0 <= p < ns.len(),
        0 <= k < kids(ns, p).len(),
    ensures
        parent_of(ns, kids(ns, p)[k]) == Some(p),
        k > 0 ==> sibling_before(ns, kids(ns, p)[k]) == Some(kids(ns, p)[k - 1]),
{
    let c = kids(ns, p)[k];
    lemma_kid(ns, p, p + 1, k);
    lemma_parent(ns, p, c, c - 1);
    if k > 0 {
        lemma_kid(ns, p, p + 1, k - 1);
        lemma_sibling(ns, kids(ns, p)[k - 1], c, c - 1);
    }
}

impl SyntaxTree {
    pub open spec fn has(&self, i: usize) -> bool {
        i < self.nodes@.len()
    }

    /// Whether node `i` is of the given kind.
    pub fn is(&self, i: usize, kind: &str) -> (r: bool)
        requires
            self.has(i),
        ensures
            r == (self@.nodes[i as int].kind == kind@),
    {
        same_str(self.nodes[i].kind.as_str(), kind)
    }

    /// Whether node `i` fills the given field.
    pub fn fills(&self, i: usize, field: &str) -> (r: bool)
        requires
            self.has(i),
        ensures
            r == (self@.nodes[i as int].field == Some(field@)),
    {
        match &self.nodes[i].field {
            Some(f) => same_str(f.as_str(), field),
            None => false,
        }
    }

    /// The children of node `p`, from left to right.
    pub fn children(&self, p: usize) -> (r: Vec<usize>)
        requires
            self.has(p),
        ensures
            indices(r@) == kids(self@.nodes, p as int),
            forall|k: int| 0 <= k < r@.len() ==> p < #[trigger] r@[k] < self.nodes@.len(),
    {
        let mut out: Vec<usize> = Vec::new();
        let n = self.nodes.len();
        let mut j: usize = p + 1;
        let ghost ns = self@.nodes;
        assert(indices(out@) + kids(ns, p as int) =~= kids(ns, p as int));
        while j < n && self.nodes[j].depth > self.nodes[p].depth
            invariant
                p < j <= n,
                n == self.nodes@.len(),
                ns == self@.nodes,
                forall|k: int| 0 <= k < out@.len() ==> p < #[trigger] out@[k] < self.nodes@.len(),
                indices(out@) + kids_from(ns, p as int, j as int) == kids(ns, p as int),
            decreases n - j,
        {
            let ghost before = indices(out@);
            if self.nodes[j].depth - 1 == self.nodes[p].depth {
                out.push(j);
                assert(indices(out@) =~= before.push(j as int));
                assert(before.push(j as int) + kids_from(ns, p as int, j + 1) =~= before + (seq![
                    j as int,
                ] + kids_from(ns, p as int, j + 1)));
            }
            j += 1;
        }
        assert(indices(out@) =~= kids(ns, p as int));
        out
    }

    /// The first child of node `p` in the given field.
    pub fn child_by_field_name(&self, p: usize, field: &str) -> (r: Option<usize>)
        requires
            self.has(p),
        ensures
            index(r) == field_child(self@.nodes, p as int, field@),
            r matches Some(c) ==> p < c < self.nodes@.len(),
    {
        let n = self.nodes.len();
        let mut j: usize = p + 1;
        while j < n && self.nodes[j].depth > self.nodes[p].depth
            invariant
                p < j <= n,
                n == self.nodes@.len(),
                field_child(self@.nodes, p as int, field@) == field_from(
                    self@.nodes,
                    p as int,
                    field@,
                    j as int,
                ),
            decreases n - j,
        {
            if self.nodes[j].depth - 1 == self.nodes[p].depth && self.fills(j, field) {
                return Some(j);
            }
            j += 1;
        }
        None
    }

    /// The first child of node `p` of the given kind.
    pub fn child_of_kind(&self, p: usize, kind: &str) -> (r: Option<usize>)
        requires
            self.has(p),
        ensures
            index(r) == kind_child(self@.nodes, p as int, kind@),
            r matches Some(c) ==> p < c < self.nodes@.len(),
    {
        let n = self.nodes.len();
        let mut j: usize = p + 1;
        while j < n && self.nodes[j].depth > self.nodes[p].depth
            invariant
                p < j <= n,
                n == self.nodes@.len(),
                kind_child(self@.nodes, p as int, kind@) == kind_from(self@.nodes, p as int, kind@, j as int),
            decreases n - j,
        {
            if self.nodes[j].depth - 1 == self.nodes[p].depth && self.is(j, kind) {
                return Some(j);
            }
            j += 1;
        }
        None
    }

    /// The first named child of node `p`.
    pub fn named_child(&self, p: usize) -> (r: Option<usize>)
        requires
            self.has(p),
        ensures
            index(r) == named_child(self@.nodes, p as int),
            r matches Some(c) ==> p < c < self.nodes@.len(),
    {
        let n = self.nodes.len();
        let mut j: usize = p + 1;
        while j < n && self.nodes[j].depth > self.nodes[p].depth
            invariant
                p < j <= n,
                n == self.nodes@.len(),
                named_child(self@.nodes, p as int) == named_from(self@.nodes, p as int, j as int),
            decreases n - j,
        {
            if self.nodes[j].depth - 1 == self.nodes[p].depth && self.nodes[j].named {
                return Some(j);
            }
            j += 1;
        }
        None
    }

    /// The first node of the given kind in the subtree of node `i`.
    pub fn first_within(&self, i: usize, kind: &str) -> (r: Option<usize>)
        requires
            self.has(i),
        ensures
            index(r) == first_within(self@.nodes, i as int, kind@),
            r matches Some(c) ==> i <= c < self.nodes@.len(),
    {
        let n = self.nodes.len();
        let mut j: usize = i;
        while j < n && (j == i || self.nodes[j].depth > self.nodes[i].depth)
            invariant
                i <= j <= n,
                n == self.nodes@.len(),
                first_within(self@.nodes, i as int, kind@) == within_from(
                    self@.nodes,
                    i as int,
                    kind@,
                    j as int,
                ),
            decreases n - j,
        {
            if self.is(j, kind) {
                return Some(j);
            }
            j += 1;
        }
        None
    }

    /// The parent of node `i`.
    pub fn parent(&self, i: usize) -> (r: Option<usize>)
        requires
            self.has(i),
        ensures
            index(r) == parent_of(self@.nodes, i as int),
            r matches Some(p) ==> p < i,
    {
        let mut k: usize = i;
        while k > 0
            invariant
                k <= i < self.nodes@.len(),
                parent_of(self@.nodes, i as int) == parent_upto(self@.nodes, i as int, k - 1),
            decreases k,
        {
            k -= 1;
            if self.nodes[k].depth < self.nodes[i].depth {
                if self.nodes[k].depth == self.nodes[i].depth - 1 {
                    return Some(k);
                }
                return None;
            }
        }
        None
    }

    /// The sibling just before node `i`.
    pub fn prev_sibling(&self, i: usize) -> (r: Option<usize>)
        requires
            self.has(i),
        ensures
            index(r) == sibling_before(self@.nodes, i as int),
            r matches Some(p) ==> p < i,
    {
        let mut k: usize = i;
        while k > 0
            invariant
                k <= i < self.nodes@.len(),
                sibling_before(self@.nodes, i as int) == sibling_upto(
                    self@.nodes,
                    i as int,
                    k - 1,
                ),
            decreases k,
        {
            k -= 1;
            if self.nodes[k].depth < self.nodes[i].depth {
                return None;
            }
            if self.nodes[k].depth == self.nodes[i].depth {
                return Some(k);
            }
        }
        None
    }

    /// The first child of `p` that does not lie before `at`.
    fn reaching(&self, p: usize, at: Point) -> (r: Option<usize>)
        requires
            self.has(p),
        ensures
            index(r) == reaching_from(self@.nodes, p as int, at, p + 1),
            r matches Some(c) ==> p < c < self.nodes@.len(),
    {
        let n = self.nodes.len();
        let mut j: usize = p + 1;
        while j < n && self.nodes[j].depth > self.nodes[p].depth
            invariant
                p < j <= n,
                n == self.nodes@.len(),
                reaching_from(self@.nodes, p as int, at, p + 1) == reaching_from(
                    self@.nodes,
                    p as int,
                    at,
                    j as int,
                ),
            decreases n - j,
        {
            if self.nodes[j].depth - 1 == self.nodes[p].depth {
                let node = &self.nodes[j];
                let behind = node.end.lt(&at) || (node.end == at && node.start != node.end);
                if !behind {
                    return Some(j);
                }
            }
            j += 1;
        }
        None
    }

    /// The smallest node that spans the place `at`.
    pub fn node_at(&self, at: Point) -> (r: Option<usize>)
        ensures
            index(r) == smallest_at(self@.nodes, at),
            r matches Some(i) ==> i < self.nodes@.len(),
    {
        if self.nodes.len() == 0 {
            return None;
        }
        let mut i: usize = 0;
        loop
            invariant
                i < self.nodes@.len(),
                smallest_within(self@.nodes, 0, at) == smallest_within(self@.nodes, i as int, at),
            decreases self.nodes.len() - i,
        {
            match self.reaching(i, at) {
                Some(c) => {
                    if at.lt(&self.nodes[c].start) {
                        return Some(i);
                    }
                    i = c;
                },
                None => {
                    return Some(i);
                },
            }
        }
    }

    /// The text of node `i`.
    pub fn text<'a>(&self, source: &'a str, i: usize) -> (r: Option<&'a str>)
        requires
            self.has(i),
        ensures
            match r {
                Some(t) => text_of(source@, self@.nodes[i as int]) == Some(t@),
                None => text_of(source@, self@.nodes[i as int]) is None,
            },
    {
        slice(source, self.nodes[i].start_byte, self.nodes[i].end_byte)
    }

    /// The text of node `i`, empty where it has none.
    pub fn text_or_empty<'a>(&self, source: &'a str, i: usize) -> (r: &'a str)
        requires
            self.has(i),
        ensures
            r@ == text_or_empty(source@, self@.nodes[i as int]),
    {
        match self.text(source, i) {
            Some(t) => t,
            None => {
                proof {
                    reveal_strlit("");
                    assert(""@ =~= seq![]);
                }
                ""
            },
        }
    }
}

} // verus!
