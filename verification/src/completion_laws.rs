//! What is offered behind a dot, said of the text before it.

use vstd::prelude::*;
use vstd::string::*;

use crate::completion::completed;
use crate::completion::completed_module;
use crate::completion::completed_name;
use crate::completion::index_from;
use crate::completion::index_of_position;
use crate::completion::law_positions_name_places;
use crate::completion::name_before_dot;
use crate::completion::name_start;
use crate::completion::ItemView;
use crate::definition_laws::at;
use crate::definition_laws::selected;
use crate::document::FileView;
use crate::exports::exported;
use crate::exports::ExportView;
use crate::lsp::Position;
use crate::places::place_after;
use crate::references::identifier_node;
use crate::references::selected_from;
use crate::rename::continues_name;
use crate::resolver::path_of_uri;
use crate::symbols::import_named;
use crate::syntax::parent_of;
use crate::syntax::text_of;
use crate::usage_laws::in_name;

verus! {

/// Whether all of `s` from `a` to `b` can stand in a name.
pub open spec fn name_chars(s: Seq<char>, a: int, b: int) -> bool {
    forall|i: int| a <= i < b ==> in_name(#[trigger] s[i], false)
}

/// Whether `s` from `a` to `b` is a whole name: it cannot go on before `a`.
pub open spec fn whole_name(s: Seq<char>, a: int, b: int) -> bool {
    0 <= a < b && name_chars(s, a, b) && (a > 0 ==> !in_name(s[a - 1], false))
}

proof fn lemma_name_start(s: Seq<char>, a: int, n: int)
    requires
        0 <= a <= n <= s.len(),
        name_chars(s, a, n),
        a > 0 ==> !in_name(s[a - 1], false),
    ensures
        name_start(s, n) == a,
    decreases n,
{
    if a < n {
        assert(in_name(s[n - 1], false));
        lemma_name_start(s, a, n - 1);
    }
}

/// Whether the items are those of the members, one for each in order: its name,
/// what it is, its name with its parameters where it has some, and its comment.
pub open spec fn offers(items: Seq<ItemView>, ms: Seq<ExportView>) -> bool {
    &&& items.len() == ms.len()
    &&& forall|i: int|
        0 <= i < ms.len() ==> {
            let m = #[trigger] ms[i];
            &&& items[i].label == m.name
            &&& items[i].kind == m.kind
            &&& items[i].detail == (match m.signature {
                Some(s) => Some(m.name + s),
                None => None,
            })
            &&& items[i].documentation == m.doc
        }
}

/// Behind `alias.` and behind `alias.` with any part of a name, all members of
/// the module that is imported as `alias` are offered, whether the text parses
/// there or not.
pub proof fn law_members_offered_behind_dot(
    f: FileView,
    position: Position,
    a: int,
    b: int,
    n: int,
    m: FileView,
)
    requires
        0 <= n <= f.source.len(),
        place_after(f.source, n) == (position.line as nat, position.character as nat),
        b < n,
        whole_name(f.source, a, b),
        f.source[b] == '.',
        name_chars(f.source, b + 1, n),
        import_named(f.imports, f.source.subrange(a, b)) is Some,
        path_of_uri(f.uri) is Some,
        forall|i: int, p: int, alias: Seq<char>| #[trigger]
            at(f, position, i, p) && #[trigger] selected(f, i, p, alias) ==> alias
                == f.source.subrange(a, b),
    ensures
        completed_module(f, position) == Some(
            import_named(f.imports, f.source.subrange(a, b))->0.module,
        ),
        match completed(f, position, Some(m)) {
            Some(items) => items.len() > 0 && offers(items, exported(m.source, m.tree)),
            None => exported(m.source, m.tree).len() == 0,
        },
        completed(f, position, None) is None,
{
    let s = f.source;
    law_positions_name_places(s, position, n);
    assert(!in_name('.', false));
    lemma_name_start(s, b + 1, n);
    lemma_name_start(s, a, b);
    assert(name_before_dot(s, position) == Some(s.subrange(a, b)));
    if let Some(i) = identifier_node(f, position) {
        if let Some(o) = selected_from(f.tree.nodes, i) {
            if let Some(alias) = text_of(s, f.tree.nodes[o]) {
                let p = parent_of(f.tree.nodes, i)->0;
                assert(at(f, position, i, p) && selected(f, i, p, alias));
            }
        }
    }
    assert(completed_name(f, position) == Some(s.subrange(a, b)));
}

/// On the field of a selector the members of what it is selected from are
/// offered.
pub proof fn law_members_offered_on_field(
    f: FileView,
    position: Position,
    i: int,
    p: int,
    alias: Seq<char>,
    m: FileView,
)
    requires
        at(f, position, i, p),
        selected(f, i, p, alias),
        import_named(f.imports, alias) is Some,
        path_of_uri(f.uri) is Some,
    ensures
        completed_module(f, position) == Some(import_named(f.imports, alias)->0.module),
        match completed(f, position, Some(m)) {
            Some(items) => items.len() > 0 && offers(items, exported(m.source, m.tree)),
            None => exported(m.source, m.tree).len() == 0,
        },
{
}

/// Where neither holds nothing is offered: the name at the place, if there is
/// one, does not stand behind a dot behind a name that something is imported as.
pub proof fn law_nothing_offered_elsewhere(
    f: FileView,
    position: Position,
    module: Option<FileView>,
)
    requires
        forall|i: int, p: int, alias: Seq<char>| #[trigger]
            at(f, position, i, p) && #[trigger] selected(f, i, p, alias) ==> import_named(
                f.imports,
                alias,
            ) is None,
        forall|a: int, b: int, n: int| #[trigger]
            whole_name(f.source, a, b) && b < n <= f.source.len() && #[trigger] place_after(
                f.source,
                n,
            ) == (position.line as nat, position.character as nat) && f.source[b] == '.'
                && name_chars(f.source, b + 1, n) ==> import_named(
                f.imports,
                f.source.subrange(a, b),
            ) is None,
    ensures
        completed(f, position, module) is None,
{
    let s = f.source;
    if let Some(i) = identifier_node(f, position) {
        if let Some(o) = selected_from(f.tree.nodes, i) {
            if let Some(alias) = text_of(s, f.tree.nodes[o]) {
                let p = parent_of(f.tree.nodes, i)->0;
                assert(at(f, position, i, p) && selected(f, i, p, alias));
            }
        }
    }
    lemma_index_found(s, position, 0);
    if let Some(n) = index_of_position(s, position) {
        lemma_name_starts(s, n);
        let i = name_start(s, n);
        if i > 0 {
            lemma_name_starts(s, i - 1);
            let start = name_start(s, i - 1);
            if s[i - 1] == '.' && start < i - 1 {
                assert(whole_name(s, start, i - 1));
            }
        }
    }
}

proof fn lemma_index_found(s: Seq<char>, position: Position, from: int)
    requires
        0 <= from <= s.len(),
    ensures
        index_from(s, position, from) matches Some(n) ==> from <= n <= s.len()
            && place_after(s, n) == (position.line as nat, position.character as nat),
    decreases s.len() - from,
{
    if from < s.len() {
        lemma_index_found(s, position, from + 1);
    }
}

proof fn lemma_name_starts(s: Seq<char>, n: int)
    requires
        0 <= n <= s.len(),
    ensures
        0 <= name_start(s, n) <= n,
        name_chars(s, name_start(s, n), n),
        name_start(s, n) > 0 ==> !in_name(s[name_start(s, n) - 1], false),
    decreases n,
{
    if n > 0 && continues_name(s[n - 1]) {
        lemma_name_starts(s, n - 1);
    }
}

/// The name before the dot before a position, with any part of a name between
/// them, is found from the text alone; without a dot or without a name before it
/// there is none.
pub proof fn law_name_before_dot(s: Seq<char>, position: Position, b: int, n: int)
    requires
        0 <= b < n <= s.len(),
        place_after(s, n) == (position.line as nat, position.character as nat),
        name_chars(s, b + 1, n),
        !in_name(s[b], false),
    ensures
        s[b] != '.' ==> name_before_dot(s, position) is None,
        b == 0 || !in_name(s[b - 1], false) ==> name_before_dot(s, position) is None,
        s[b] == '.' ==> forall|a: int| #[trigger]
            whole_name(s, a, b) ==> name_before_dot(s, position) == Some(s.subrange(a, b)),
{
    law_positions_name_places(s, position, n);
    lemma_name_start(s, b + 1, n);
    lemma_name_starts(s, b);
    if b == 0 || !in_name(s[b - 1], false) {
        lemma_name_start(s, b, b);
    }
    assert forall|a: int| s[b] == '.' && #[trigger] whole_name(s, a, b) implies name_before_dot(
        s,
        position,
    ) == Some(s.subrange(a, b)) by {
        lemma_name_start(s, a, b);
    }
}

} // verus!
