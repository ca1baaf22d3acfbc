//! The ways through a syntax tree, said of the depths of its nodes.

use vstd::prelude::*;
use vstd::string::*;
use vstd::utf8::*;

use crate::syntax::ends_before;
use crate::syntax::field_child;
use crate::syntax::field_from;
use crate::syntax::first_within;
use crate::syntax::kids;
use crate::syntax::kids_from;
use crate::syntax::kind_child;
use crate::syntax::kind_from;
use crate::syntax::named_child;
use crate::syntax::named_from;
use crate::syntax::parent_of;
use crate::syntax::parent_upto;
use crate::syntax::reaching_from;
use crate::syntax::sibling_before;
use crate::syntax::sibling_upto;
use crate::syntax::smallest_at;
use crate::syntax::smallest_within;
use crate::syntax::text_of;
use crate::syntax::within_from;
use crate::syntax::NodeView;
use crate::syntax::Point;

verus! {

pub proof fn lemma_upto(ns: Seq<NodeView>, i: int, k: int)
    ensures
        parent_upto(ns, i, k) matches Some(p) ==> 0 <= p <= k && ns[p].depth + 1 == ns[i].depth
            && forall|j: int| p < j <= k ==> (#[trigger] ns[j]).depth >= ns[i].depth,
    decreases k + 1,
{
    if k >= 0 {
        lemma_upto(ns, i, k - 1);
    }
}

proof fn lemma_upto_is(ns: Seq<NodeView>, i: int, p: int, k: int)
    requires
        0 <= p <= k,
        ns[p].depth + 1 == ns[i].depth,
        forall|j: int| p < j <= k ==> (#[trigger] ns[j]).depth >= ns[i].depth,
    ensures
        parent_upto(ns, i, k) == Some(p),
    decreases k,
{
    if k > p {
        assert(ns[k].depth >= ns[i].depth);
        lemma_upto_is(ns, i, p, k - 1);
    }
}

/// A node is listed among the children of its parent.
pub proof fn law_parent_lists_child(ns: Seq<NodeView>, p: int, i: int)
    requires
        0 <= i < ns.len(),
        parent_of(ns, i) == Some(p),
    ensures
        0 <= p < i,
        kids(ns, p).contains(i),
{
    lemma_upto(ns, i, i - 1);
    lemma_listed(ns, p, i, p + 1);
}

proof fn lemma_listed(ns: Seq<NodeView>, p: int, i: int, j: int)
    requires
        0 <= p < j <= i < ns.len(),
        ns[i].depth == ns[p].depth + 1,
        forall|k: int| p < k < i ==> (#[trigger] ns[k]).depth >= ns[i].depth,
    ensures
        kids_from(ns, p, j).contains(i),
    decreases i - j,
{
    let all = kids_from(ns, p, j);
    if j == i {
        assert(all[0] == i);
    } else {
        assert(ns[j].depth >= ns[i].depth);
        lemma_listed(ns, p, i, j + 1);
        let rest = kids_from(ns, p, j + 1);
        let k = choose|k: int| 0 <= k < rest.len() && rest[k] == i;
        if ns[j].depth == ns[p].depth + 1 {
            assert(all[k + 1] == i);
        }
    }
}

/// The child that fills a field has the field's node as its parent.
pub proof fn law_field_of_parent(ns: Seq<NodeView>, p: int, f: Seq<char>)
    requires
        0 <= p < ns.len(),
    ensures
        field_child(ns, p, f) matches Some(c) ==> p < c < ns.len() && ns[c].field == Some(f)
            && parent_of(ns, c) == Some(p),
{
    lemma_field(ns, p, f, p + 1);
    if let Some(c) = field_child(ns, p, f) {
        assert forall|j: int| p < j <= c - 1 implies (#[trigger] ns[j]).depth >= ns[c].depth by {}
        lemma_upto_is(ns, c, p, c - 1);
    }
}

proof fn lemma_field(ns: Seq<NodeView>, p: int, f: Seq<char>, j: int)
    requires
        0 <= p < j,
    ensures
        field_from(ns, p, f, j) matches Some(c) ==> j <= c < ns.len() && ns[c].depth == ns[p].depth
            + 1 && ns[c].field == Some(f) && forall|k: int|
            j <= k < c ==> (#[trigger] ns[k]).depth > ns[p].depth,
    decreases ns.len() - j,
{
    if j < ns.len() && ns[j].depth > ns[p].depth && !(ns[j].depth == ns[p].depth + 1 && ns[j].field
        == Some(f)) {
        lemma_field(ns, p, f, j + 1);
    }
}

pub proof fn lemma_kid_bound(ns: Seq<NodeView>, p: int, j: int, k: int)
    requires
        0 <= p < j,
        0 <= k < kids_from(ns, p, j).len(),
    ensures
        j <= kids_from(ns, p, j)[k] < ns.len(),
    decreases ns.len() - j,
{
    if ns[j].depth == ns[p].depth + 1 {
        if k > 0 {
            assert(kids_from(ns, p, j)[k] == kids_from(ns, p, j + 1)[k - 1]);
            lemma_kid_bound(ns, p, j + 1, k - 1);
        }
    } else {
        lemma_kid_bound(ns, p, j + 1, k);
    }
}


/// Whether node `c` is a child of node `p`: the first thing less deep before it,
/// by one.
pub open spec fn child(ns: Seq<NodeView>, p: int, c: int) -> bool {
    0 <= p < c < ns.len() && ns[c].depth == ns[p].depth + 1 && forall|j: int|
        p < j < c ==> (#[trigger] ns[j]).depth > ns[p].depth
}

/// A node's parent is the one that it is a child of.
pub proof fn law_parent(ns: Seq<NodeView>, p: int, c: int)
    requires
        0 <= c < ns.len(),
    ensures
        parent_of(ns, c) == Some(p) <==> child(ns, p, c),
{
    lemma_upto(ns, c, c - 1);
    if child(ns, p, c) {
        lemma_upto_is(ns, c, p, c - 1);
    }
}

proof fn lemma_kid_child(ns: Seq<NodeView>, p: int, j: int)
    requires
        0 <= p < j <= ns.len(),
        forall|k: int| p < k < j ==> (#[trigger] ns[k]).depth > ns[p].depth,
    ensures
        forall|i: int|
            0 <= i < kids_from(ns, p, j).len() ==> child(ns, p, #[trigger] kids_from(ns, p, j)[i])
                && kids_from(ns, p, j)[i] >= j,
        forall|i: int, k: int|
            0 <= i < k < kids_from(ns, p, j).len() ==> kids_from(ns, p, j)[i] < kids_from(
                ns,
                p,
                j,
            )[k],
    decreases ns.len() - j,
{
    if j < ns.len() && ns[j].depth > ns[p].depth {
        lemma_kid_child(ns, p, j + 1);
        let all = kids_from(ns, p, j);
        let rest = kids_from(ns, p, j + 1);
        if ns[j].depth == ns[p].depth + 1 {
            assert forall|i: int| 0 <= i < all.len() implies child(ns, p, #[trigger] all[i])
                && all[i] >= j by {
                if i > 0 {
                    assert(all[i] == rest[i - 1]);
                }
            }
            assert forall|i: int, k: int| 0 <= i < k < all.len() implies all[i] < all[k] by {
                assert(all[k] == rest[k - 1]);
                if i > 0 {
                    assert(all[i] == rest[i - 1]);
                }
            }
        }
    }
}

/// The children of a node are all the nodes whose parent it is, each once, from
/// left to right.
pub proof fn law_children(ns: Seq<NodeView>, p: int)
    requires
        0 <= p < ns.len(),
    ensures
        forall|c: int| #[trigger] kids(ns, p).contains(c) <==> child(ns, p, c),
        forall|i: int, k: int| 0 <= i < k < kids(ns, p).len() ==> kids(ns, p)[i] < kids(ns, p)[k],
{
    lemma_kid_child(ns, p, p + 1);
    assert forall|c: int| #[trigger] kids(ns, p).contains(c) <==> child(ns, p, c) by {
        if child(ns, p, c) {
            law_parent(ns, p, c);
            law_parent_lists_child(ns, p, c);
        }
    }
}

proof fn lemma_field_first(ns: Seq<NodeView>, p: int, f: Seq<char>, j: int)
    requires
        0 <= p < j <= ns.len(),
        forall|k: int| p < k < j ==> (#[trigger] ns[k]).depth > ns[p].depth,
    ensures
        match field_from(ns, p, f, j) {
            Some(c) => c >= j && child(ns, p, c) && ns[c].field == Some(f) && (forall|k: int|
                j <= k < c && #[trigger] child(ns, p, k) ==> ns[k].field != Some(f)),
            None => forall|k: int| j <= k && #[trigger] child(ns, p, k) ==> ns[k].field != Some(f),
        },
    decreases ns.len() - j,
{
    if j < ns.len() && ns[j].depth > ns[p].depth && !(ns[j].depth == ns[p].depth + 1 && ns[j].field
        == Some(f)) {
        lemma_field_first(ns, p, f, j + 1);
    }
}

/// The child in a field is the first one in it, wherever there is one.
pub proof fn law_field_child(ns: Seq<NodeView>, p: int, f: Seq<char>)
    requires
        0 <= p < ns.len(),
    ensures
        match field_child(ns, p, f) {
            Some(c) => child(ns, p, c) && ns[c].field == Some(f) && (forall|k: int|
                k < c && #[trigger] child(ns, p, k) ==> ns[k].field != Some(f)),
            None => forall|k: int| #[trigger] child(ns, p, k) ==> ns[k].field != Some(f),
        },
{
    lemma_field_first(ns, p, f, p + 1);
}

proof fn lemma_kind_first(ns: Seq<NodeView>, p: int, kind: Seq<char>, j: int)
    requires
        0 <= p < j <= ns.len(),
        forall|k: int| p < k < j ==> (#[trigger] ns[k]).depth > ns[p].depth,
    ensures
        match kind_from(ns, p, kind, j) {
            Some(c) => c >= j && child(ns, p, c) && ns[c].kind == kind && (forall|k: int|
                j <= k < c && #[trigger] child(ns, p, k) ==> ns[k].kind != kind),
            None => forall|k: int| j <= k && #[trigger] child(ns, p, k) ==> ns[k].kind != kind,
        },
    decreases ns.len() - j,
{
    if j < ns.len() && ns[j].depth > ns[p].depth && !(ns[j].depth == ns[p].depth + 1 && ns[j].kind
        == kind) {
        lemma_kind_first(ns, p, kind, j + 1);
    }
}

/// The child of a kind is the first one of it, wherever there is one.
pub proof fn law_kind_child(ns: Seq<NodeView>, p: int, kind: Seq<char>)
    requires
        0 <= p < ns.len(),
    ensures
        match kind_child(ns, p, kind) {
            Some(c) => child(ns, p, c) && ns[c].kind == kind && (forall|k: int|
                k < c && #[trigger] child(ns, p, k) ==> ns[k].kind != kind),
            None => forall|k: int| #[trigger] child(ns, p, k) ==> ns[k].kind != kind,
        },
{
    lemma_kind_first(ns, p, kind, p + 1);
}

proof fn lemma_named_first(ns: Seq<NodeView>, p: int, j: int)
    requires
        0 <= p < j <= ns.len(),
        forall|k: int| p < k < j ==> (#[trigger] ns[k]).depth > ns[p].depth,
    ensures
        match named_from(ns, p, j) {
            Some(c) => c >= j && child(ns, p, c) && ns[c].named && (forall|k: int|
                j <= k < c && #[trigger] child(ns, p, k) ==> !ns[k].named),
            None => forall|k: int| j <= k && #[trigger] child(ns, p, k) ==> !ns[k].named,
        },
    decreases ns.len() - j,
{
    if j < ns.len() && ns[j].depth > ns[p].depth && !(ns[j].depth == ns[p].depth + 1
        && ns[j].named) {
        lemma_named_first(ns, p, j + 1);
    }
}

/// The named child is the first one, wherever there is one.
pub proof fn law_named_child(ns: Seq<NodeView>, p: int)
    requires
        0 <= p < ns.len(),
    ensures
        match named_child(ns, p) {
            Some(c) => child(ns, p, c) && ns[c].named && (forall|k: int|
                k < c && #[trigger] child(ns, p, k) ==> !ns[k].named),
            None => forall|k: int| #[trigger] child(ns, p, k) ==> !ns[k].named,
        },
{
    lemma_named_first(ns, p, p + 1);
}

/// Whether node `k` is `i` or lies below it.
pub open spec fn within(ns: Seq<NodeView>, i: int, k: int) -> bool {
    0 <= i <= k < ns.len() && forall|j: int| i < j <= k ==> (#[trigger] ns[j]).depth > ns[i].depth
}

proof fn lemma_within_first(ns: Seq<NodeView>, i: int, kind: Seq<char>, j: int)
    requires
        0 <= i <= j <= ns.len(),
        forall|k: int| i < k < j ==> (#[trigger] ns[k]).depth > ns[i].depth,
    ensures
        match within_from(ns, i, kind, j) {
            Some(c) => c >= j && within(ns, i, c) && ns[c].kind == kind && (forall|k: int|
                j <= k < c && #[trigger] within(ns, i, k) ==> ns[k].kind != kind),
            None => forall|k: int| j <= k && #[trigger] within(ns, i, k) ==> ns[k].kind != kind,
        },
    decreases ns.len() - j,
{
    if j < ns.len() && !(j > i && ns[j].depth <= ns[i].depth) && ns[j].kind != kind {
        lemma_within_first(ns, i, kind, j + 1);
    }
}

/// What is found of a kind within a node is the first of it there, wherever
/// there is one, at any depth.
pub proof fn law_first_within(ns: Seq<NodeView>, i: int, kind: Seq<char>)
    requires
        0 <= i < ns.len(),
    ensures
        match first_within(ns, i, kind) {
            Some(c) => within(ns, i, c) && ns[c].kind == kind && (forall|k: int|
                k < c && #[trigger] within(ns, i, k) ==> ns[k].kind != kind),
            None => forall|k: int| #[trigger] within(ns, i, k) ==> ns[k].kind != kind,
        },
{
    lemma_within_first(ns, i, kind, i);
}

proof fn lemma_sibling_upto(ns: Seq<NodeView>, i: int, k: int)
    ensures
        match sibling_upto(ns, i, k) {
            Some(s) => 0 <= s <= k && ns[s].depth == ns[i].depth && (forall|j: int|
                s < j <= k ==> (#[trigger] ns[j]).depth > ns[i].depth),
            None => k < 0 || (exists|s: int|
                0 <= s <= k && (#[trigger] ns[s]).depth < ns[i].depth && (forall|j: int|
                    s < j <= k ==> (#[trigger] ns[j]).depth > ns[i].depth)) || (forall|j: int|
                0 <= j <= k ==> (#[trigger] ns[j]).depth > ns[i].depth),
        },
    decreases k + 1,
{
    if k >= 0 && ns[k].depth > ns[i].depth {
        lemma_sibling_upto(ns, i, k - 1);
    }
}

/// The sibling before a node is the nearest node before it at its own depth,
/// with nothing less deep between them.
pub proof fn law_sibling_before(ns: Seq<NodeView>, s: int, i: int)
    requires
        0 <= i < ns.len(),
    ensures
        sibling_before(ns, i) == Some(s) <==> (0 <= s < i && ns[s].depth == ns[i].depth && (forall|j: int|
            s < j < i ==> (#[trigger] ns[j]).depth > ns[i].depth)),
{
    lemma_sibling_upto(ns, i, i - 1);
    if 0 <= s < i && ns[s].depth == ns[i].depth && (forall|j: int|
        s < j < i ==> (#[trigger] ns[j]).depth > ns[i].depth) {
        lemma_sibling_is(ns, s, i, i - 1);
    }
}

proof fn lemma_sibling_is(ns: Seq<NodeView>, s: int, i: int, k: int)
    requires
        0 <= s <= k < i,
        ns[s].depth == ns[i].depth,
        forall|j: int| s < j < i ==> (#[trigger] ns[j]).depth > ns[i].depth,
    ensures
        sibling_upto(ns, i, k) == Some(s),
    decreases k,
{
    if k > s {
        assert(ns[k].depth > ns[i].depth);
        lemma_sibling_is(ns, s, i, k - 1);
    }
}

/// The text of a node is what stands between its two offsets, byte for byte.
pub proof fn law_text_of_node(source: Seq<char>, n: NodeView)
    ensures
        text_of(source, n) matches Some(t) ==> encode_utf8(t) == encode_utf8(source).subrange(
            n.start_byte as int,
            n.end_byte as int,
        ),
        text_of(source, n) is Some <==> n.start_byte <= n.end_byte && n.end_byte <= encode_utf8(
            source,
        ).len() && is_char_boundary(encode_utf8(source), n.start_byte as int) && is_char_boundary(
            encode_utf8(source),
            n.end_byte as int,
        ),
{
    if text_of(source, n) is Some {
        let bytes = encode_utf8(source);
        let a = n.start_byte as int;
        let b = n.end_byte as int;
        let head = bytes.subrange(0, b);
        encode_utf8_valid_utf8(source);
        valid_utf8_split(bytes, b);
        if a < b {
            is_char_boundary_iff_not_is_continuation_byte(bytes, a);
            is_char_boundary_iff_not_is_continuation_byte(head, a);
        } else {
            is_char_boundary_start_end_of_seq(head);
        }
        valid_utf8_split(head, a);
        assert(head.subrange(a, b) =~= bytes.subrange(a, b));
        decode_utf8_encode_utf8(bytes.subrange(a, b));
    }
}

/// Whether the nodes nest: none is empty, what lies below a node lies within
/// it, and what does not begins behind it.
pub open spec fn laid_in_order(ns: Seq<NodeView>) -> bool {
    &&& forall|k: int| 0 <= k < ns.len() ==> (#[trigger] ns[k]).start.before(ns[k].end)
    &&& forall|k: int, j: int|
        0 <= k < j < ns.len() ==> if #[trigger] within(ns, k, j) {
            !ns[j].start.before(ns[k].start) && !ns[k].end.before(ns[j].end)
        } else {
            !ns[j].start.before(ns[k].end)
        }
}

/// Whether node `n` holds the place `at`.
pub open spec fn holds(n: NodeView, at: Point) -> bool {
    (n.start.row < at.row || (n.start.row == at.row && n.start.column <= at.column)) && (at.row
        < n.end.row || (at.row == n.end.row && at.column < n.end.column))
}

proof fn lemma_branch(ns: Seq<NodeView>, i: int, k: int, j: int) -> (c: int)
    requires
        within(ns, i, k),
        i < j <= k,
        child(ns, i, j),
    ensures
        child(ns, i, c),
        within(ns, c, k),
    decreases k - j,
{
    if forall|m: int| j < m <= k ==> (#[trigger] ns[m]).depth > ns[j].depth {
        j
    } else {
        let m = lemma_first_up(ns, j, k, j + 1);
        assert(ns[m].depth > ns[i].depth);
        lemma_branch(ns, i, k, m)
    }
}

proof fn lemma_first_up(ns: Seq<NodeView>, j: int, k: int, from: int) -> (m: int)
    requires
        j < from <= k,
        exists|m: int| from <= m <= k && (#[trigger] ns[m]).depth <= ns[j].depth,
    ensures
        from <= m <= k,
        ns[m].depth <= ns[j].depth,
        forall|h: int| from <= h < m ==> (#[trigger] ns[h]).depth > ns[j].depth,
    decreases k - from,
{
    if ns[from].depth <= ns[j].depth {
        from
    } else {
        lemma_first_up(ns, j, k, from + 1)
    }
}

/// Whether the depths are those of a tree: no node is deeper than its
/// predecessor by more than one.
pub open spec fn steps_down(ns: Seq<NodeView>) -> bool {
    forall|k: int| 0 < k < ns.len() ==> (#[trigger] ns[k]).depth <= ns[k - 1].depth + 1
}

proof fn lemma_reaching_first(ns: Seq<NodeView>, p: int, at: Point, j: int)
    requires
        0 <= p < j <= ns.len(),
        forall|k: int| p < k < j ==> (#[trigger] ns[k]).depth > ns[p].depth,
    ensures
        match reaching_from(ns, p, at, j) {
            Some(c) => c >= j && child(ns, p, c) && !ends_before(ns[c], at) && (forall|k: int|
                j <= k < c && #[trigger] child(ns, p, k) ==> ends_before(ns[k], at)),
            None => forall|k: int| j <= k && #[trigger] child(ns, p, k) ==> ends_before(ns[k], at),
        },
    decreases ns.len() - j,
{
    if j < ns.len() && ns[j].depth > ns[p].depth && !(ns[j].depth == ns[p].depth + 1
        && !ends_before(ns[j], at)) {
        lemma_reaching_first(ns, p, at, j + 1);
    }
}

proof fn lemma_smallest_below(ns: Seq<NodeView>, i: int, k: int, at: Point)
    requires
        steps_down(ns),
        laid_in_order(ns),
        within(ns, i, k),
        holds(ns[k], at),
    ensures
        within(ns, k, smallest_within(ns, i, at)),
        within(ns, i, smallest_within(ns, i, at)),
        holds(ns[smallest_within(ns, i, at)], at),
    decreases ns.len() - i,
{
    lemma_reaching_first(ns, i, at, i + 1);
    let found = reaching_from(ns, i, at, i + 1);
    if k == i {
        if let Some(c) = found {
            if !at.before(ns[c].start) {
                assert(holds(ns[c], at)) by {
                    assert(ns[c].start.before(ns[c].end));
                }
                lemma_smallest_below(ns, c, c, at);
                lemma_within_twice(ns, i, c, smallest_within(ns, c, at));
            }
        }
    } else {
        assert(ns[i + 1].depth > ns[i].depth);
        assert(child(ns, i, i + 1));
        let d = lemma_branch(ns, i, k, i + 1);
        assert(holds(ns[d], at)) by {
            if d < k {
                assert(within(ns, d, k));
            }
        }
        assert(!ends_before(ns[d], at));
        let c = found->0;
        assert(child(ns, i, d));
        if c < d {
            assert(!within(ns, c, d)) by {
                assert(ns[d].depth == ns[c].depth);
            }
            assert(!ns[d].start.before(ns[c].end));
            assert(ns[c].start.before(ns[c].end));
        }
        assert(c == d);
        lemma_smallest_below(ns, d, k, at);
        lemma_within_twice(ns, i, d, smallest_within(ns, d, at));
    }
}

proof fn lemma_within_twice(ns: Seq<NodeView>, i: int, c: int, r: int)
    requires
        child(ns, i, c),
        within(ns, c, r),
    ensures
        within(ns, i, r),
{
    assert forall|j: int| i < j <= r implies (#[trigger] ns[j]).depth > ns[i].depth by {}
}

/// What is found at a place is the innermost node there: it holds the place, and
/// it lies within every node that does.
pub proof fn law_smallest_node_is_innermost(ns: Seq<NodeView>, k: int, at: Point)
    requires
        steps_down(ns),
        laid_in_order(ns),
        within(ns, 0, k),
        holds(ns[k], at),
    ensures
        smallest_at(ns, at) matches Some(r) && holds(ns[r], at) && within(ns, k, r),
{
    lemma_smallest_below(ns, 0, k, at);
}

} // verus!
