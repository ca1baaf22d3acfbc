//! Lexical scopes.

use vstd::prelude::*;

use crate::syntax::NodeView;
use crate::syntax::SyntaxTree;

verus! {

/// A lexical scope: the whole file, a block or a function.
#[derive(Debug, Clone, Copy, PartialEq, Eq, Structural)]
pub struct Scope {
    /// The scope's place in the list of scopes.
    pub id: usize,
    /// The scope that this one lies in.
    pub parent: Option<usize>,
    pub start_byte: usize,
    pub end_byte: usize,
}

impl Scope {
    pub open spec fn holds(self, byte: usize) -> bool {
        self.start_byte <= byte < self.end_byte
    }

    pub open spec fn size(self) -> int {
        self.end_byte - self.start_byte
    }
}

/// Whether a node of the given kind makes a scope.
pub open spec fn makes_scope(kind: Seq<char>) -> bool {
    kind == "source_file"@ || kind == "block"@ || kind == "func_literal"@
}

/// Whether node `i` lies within the subtree of the earlier node `k`.
pub open spec fn encloses(ns: Seq<NodeView>, k: int, i: int) -> bool {
    forall|j: int| k < j <= i ==> (#[trigger] ns[j]).depth > ns[k].depth
}

/// The last node before `k` that makes a scope and encloses node `i`.
pub open spec fn scope_node_before(ns: Seq<NodeView>, i: int, k: int) -> Option<int>
    decreases k,
{
    if k <= 0 {
        None
    } else if makes_scope(ns[k - 1].kind) && encloses(ns, k - 1, i) {
        Some(k - 1)
    } else {
        scope_node_before(ns, i, k - 1)
    }
}

/// The scopes that the first `n` nodes make, in the order of the nodes.
pub open spec fn scopes_upto(ns: Seq<NodeView>, n: int) -> Seq<Scope>
    decreases n,
{
    if n <= 0 {
        seq![]
    } else {
        let rest = scopes_upto(ns, n - 1);
        let i = n - 1;
        if makes_scope(ns[i].kind) {
            rest.push(
                Scope {
                    id: rest.len() as usize,
                    parent: match scope_node_before(ns, i, i) {
                        Some(k) => Some(scope_count(ns, k) as usize),
                        None => None,
                    },
                    start_byte: ns[i].start_byte,
                    end_byte: ns[i].end_byte,
                },
            )
        } else {
            rest
        }
    }
}

/// The number of scopes that the first `n` nodes make.
pub open spec fn scope_count(ns: Seq<NodeView>, n: int) -> nat
    decreases n,
{
    if n <= 0 {
        0
    } else if makes_scope(ns[n - 1].kind) {
        scope_count(ns, n - 1) + 1
    } else {
        scope_count(ns, n - 1)
    }
}

/// The scopes of a file.
pub open spec fn scopes_of(ns: Seq<NodeView>) -> Seq<Scope> {
    scopes_upto(ns, ns.len() as int)
}

/// The smallest of the first `n` scopes that hold `byte`; of two of one size
/// the first.
pub open spec fn innermost_of(scopes: Seq<Scope>, byte: usize, n: int) -> Option<int>
    decreases n,
{
    if n <= 0 {
        None
    } else {
        let s = scopes[n - 1];
        match innermost_of(scopes, byte, n - 1) {
            Some(b) => if s.holds(byte) && s.size() < scopes[b].size() {
                Some(n - 1)
            } else {
                Some(b)
            },
            None => if s.holds(byte) {
                Some(n - 1)
            } else {
                None
            },
        }
    }
}

/// The innermost scope that holds `byte`.
pub open spec fn innermost(scopes: Seq<Scope>, byte: usize) -> Option<int> {
    innermost_of(scopes, byte, scopes.len() as int)
}

/// What [`innermost_of`] finds.
pub proof fn lemma_innermost(scopes: Seq<Scope>, byte: usize, n: int)
    requires
        0 <= n <= scopes.len(),
    ensures
        match innermost_of(scopes, byte, n) {
            Some(b) => 0 <= b < n && scopes[b].holds(byte) && (forall|k: int|
                0 <= k < n && (#[trigger] scopes[k]).holds(byte) ==> scopes[b].size()
                    <= scopes[k].size()) && (forall|k: int|
                0 <= k < b && (#[trigger] scopes[k]).holds(byte) ==> scopes[b].size()
                    < scopes[k].size()),
            None => forall|k: int| 0 <= k < n ==> !(#[trigger] scopes[k]).holds(byte),
        },
    decreases n,
{
    if n > 0 {
        lemma_innermost(scopes, byte, n - 1);
    }
}

/// The number of scopes is the number of nodes that make one.
pub proof fn lemma_scope_count(ns: Seq<NodeView>, n: int)
    ensures
        scopes_upto(ns, n).len() == scope_count(ns, n),
        scope_count(ns, n) <= (if n > 0 {
            n
        } else {
            0
        }),
    decreases n,
{
    if n > 0 {
        lemma_scope_count(ns, n - 1);
    }
}

proof fn lemma_scope_count_less(ns: Seq<NodeView>, k: int, n: int)
    requires
        0 <= k < n,
        makes_scope(ns[k].kind),
    ensures
        scope_count(ns, k) < scope_count(ns, n),
    decreases n,
{
    if k < n - 1 {
        lemma_scope_count_less(ns, k, n - 1);
    }
}

/// What [`scope_node_before`] finds.
pub proof fn lemma_scope_node(ns: Seq<NodeView>, i: int, k: int)
    ensures
        scope_node_before(ns, i, k) matches Some(p) ==> 0 <= p < k && makes_scope(ns[p].kind)
            && encloses(ns, p, i),
    decreases k,
{
    if k > 0 {
        lemma_scope_node(ns, i, k - 1);
    }
}

/// Every scope is listed under its own number, behind the scope that it lies
/// in.
pub proof fn law_scopes_numbered(ns: Seq<NodeView>, n: int)
    requires
        n <= ns.len() <= usize::MAX,
    ensures
        forall|i: int|
            0 <= i < scopes_upto(ns, n).len() ==> (#[trigger] scopes_upto(ns, n)[i]).id == i && (
            scopes_upto(ns, n)[i].parent matches Some(p) ==> p < i),
    decreases n,
{
    if n > 0 {
        law_scopes_numbered(ns, n - 1);
        lemma_scope_count(ns, n - 1);
        lemma_scope_node(ns, n - 1, n - 1);
        if let Some(k) = scope_node_before(ns, n - 1, n - 1) {
            lemma_scope_count_less(ns, k, n - 1);
        }
    }
}

/// The innermost scope at a place holds it, no other that holds it is
/// smaller, and of those of its size it comes first.
pub proof fn law_innermost_smallest(scopes: Seq<Scope>, byte: usize)
    ensures
        match innermost(scopes, byte) {
            Some(b) => 0 <= b < scopes.len() && scopes[b].holds(byte) && (forall|k: int|
                0 <= k < scopes.len() && (#[trigger] scopes[k]).holds(byte) ==> scopes[b].size()
                    <= scopes[k].size() && (k < b ==> scopes[b].size() < scopes[k].size())),
            None => forall|k: int| 0 <= k < scopes.len() ==> !(#[trigger] scopes[k]).holds(byte),
        },
{
    lemma_innermost(scopes, byte, scopes.len() as int);
}

fn creates_scope(tree: &SyntaxTree, i: usize) -> (r: bool)
    requires
        tree.has(i),
    ensures
        r == makes_scope(tree@.nodes[i as int].kind),
{
    tree.is(i, "source_file") || tree.is(i, "block") || tree.is(i, "func_literal")
}

/// The number of the scope that node `i` lies in, where `count` scopes begin
/// before it.
fn enclosing_scope(tree: &SyntaxTree, i: usize, count: usize) -> (r: Option<usize>)
    requires
        tree.has(i),
        count == scope_count(tree@.nodes, i as int),
    ensures
        match scope_node_before(tree@.nodes, i as int, i as int) {
            Some(k) => r == Some(scope_count(tree@.nodes, k) as usize),
            None => r is None,
        },
{
    let ghost ns = tree@.nodes;
    let mut k: usize = i;
    let mut id: usize = count;
    let mut low: usize = tree.nodes[i].depth;
    assert(low == ns[i as int].depth);
    while k > 0
        invariant
            k <= i < tree.nodes@.len(),
            ns == tree@.nodes,
            id == scope_count(ns, k as int),
            scope_node_before(ns, i as int, i as int) == scope_node_before(ns, i as int, k as int),
            forall|j: int| k <= j <= i ==> low <= (#[trigger] ns[j]).depth,
            exists|j: int| k <= j <= i && low == (#[trigger] ns[j]).depth,
        decreases k,
    {
        k -= 1;
        let depth = tree.nodes[k].depth;
        if creates_scope(tree, k) {
            id -= 1;
            if depth < low {
                assert(encloses(ns, k as int, i as int));
                return Some(id);
            }
            proof {
                let j = choose|j: int| k + 1 <= j <= i && low == (#[trigger] ns[j]).depth;
                assert(!encloses(ns, k as int, i as int));
            }
        }
        if depth < low {
            low = depth;
            assert(low == ns[k as int].depth);
        }
    }
    None
}

/// Lists the scopes of a file.
pub fn build_scopes(tree: &SyntaxTree, scopes: &mut Vec<Scope>)
    ensures
        final(scopes)@ == scopes_of(tree@.nodes),
{
    scopes.clear();
    let n = tree.nodes.len();
    let mut i: usize = 0;
    while i < n
        invariant
            i <= n == tree.nodes@.len(),
            scopes@ == scopes_upto(tree@.nodes, i as int),
        decreases n - i,
    {
        if creates_scope(tree, i) {
            proof {
                lemma_scope_count(tree@.nodes, i as int);
            }
            let id = scopes.len();
            let parent = enclosing_scope(tree, i, id);
            scopes.push(
                Scope {
                    id,
                    parent,
                    start_byte: tree.nodes[i].start_byte,
                    end_byte: tree.nodes[i].end_byte,
                },
            );
        }
        i += 1;
    }
}

/// The innermost scope that holds `byte`.
pub fn find_innermost(scopes: &Vec<Scope>, byte: usize) -> (r: Option<usize>)
    ensures
        match r {
            Some(b) => innermost(scopes@, byte) == Some(b as int) && b < scopes@.len(),
            None => innermost(scopes@, byte) is None,
        },
{
    let mut best: Option<usize> = None;
    let mut i: usize = 0;
    while i < scopes.len()
        invariant
            i <= scopes@.len(),
            match best {
                Some(b) => innermost_of(scopes@, byte, i as int) == Some(b as int) && b < i
                    && scopes@[b as int].holds(byte),
                None => innermost_of(scopes@, byte, i as int) is None,
            },
        decreases scopes@.len() - i,
    {
        let s = scopes[i];
        if s.start_byte <= byte && byte < s.end_byte {
            match best {
                None => {
                    best = Some(i);
                },
                Some(b) => {
                    let size = s.end_byte - s.start_byte;
                    let least = scopes[b].end_byte - scopes[b].start_byte;
                    if size < least {
                        best = Some(i);
                    }
                },
            }
        }
        i += 1;
    }
    best
}

/// The innermost scope at a place holds it, and no smaller one does; there is
/// none only where no scope holds the place.
pub proof fn law_innermost_holds(scopes: Seq<Scope>, byte: usize)
    ensures
        match innermost(scopes, byte) {
            Some(b) => 0 <= b < scopes.len() && scopes[b].start_byte <= byte && byte
                < scopes[b].end_byte && (forall|k: int|
                0 <= k < scopes.len() && (#[trigger] scopes[k]).start_byte <= byte && byte
                    < scopes[k].end_byte ==> scopes[b].end_byte - scopes[b].start_byte
                    <= scopes[k].end_byte - scopes[k].start_byte),
            None => forall|k: int|
                0 <= k < scopes.len() ==> !((#[trigger] scopes[k]).start_byte <= byte && byte
                    < scopes[k].end_byte),
        },
{
    lemma_innermost(scopes, byte, scopes.len() as int);
}

} // verus!
