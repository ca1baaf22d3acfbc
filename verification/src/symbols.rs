//! Definitions, references and imports of a file.

use vstd::prelude::*;
use vstd::string::*;

use crate::exports::binding;
use crate::exports::declares;
use crate::exports::entries;
use crate::exports::entry_key;
use crate::exports::export_entries;
use crate::exports::find_binding;
use crate::exports::find_key;
use crate::exports::is_declaration;
use crate::exports::is_shorthand_key;
use crate::exports::shorthand_key;
use crate::exports::unquote;
use crate::exports::unquoted;
use crate::lsp::Range;
use crate::places::range_of;
use crate::places::Places;
use crate::scope::find_innermost;
use crate::scope::innermost;
use crate::scope::law_innermost_smallest;
use crate::scope::law_scopes_numbered;
use crate::scope::scopes_of;
use crate::scope::Scope;
use crate::syntax::field_child;
use crate::syntax::index;
use crate::syntax::indices;
use crate::syntax::kids;
use crate::syntax::kind_child;
use crate::syntax::parent_of;
use crate::syntax::text_or_empty;
use crate::syntax::NodeView;
use crate::syntax::SyntaxTree;
use crate::text::same_str;
use crate::text::string;

verus! {

/// What a definition defines.
#[derive(Debug, Clone, Copy, PartialEq, Eq, Structural)]
pub enum SymbolKind {
    Var,
    Func,
    Import,
    Param,
    ForVar,
}

/// A definition.
#[derive(Debug)]
pub struct Symbol {
    pub name: String,
    pub kind: SymbolKind,
    pub range: Range,
    pub byte_range: std::ops::Range<usize>,
    pub scope_id: usize,
}

/// What a [`Symbol`] holds.
pub struct SymbolView {
    pub name: Seq<char>,
    pub kind: SymbolKind,
    pub range: Range,
    pub byte_range: std::ops::Range<usize>,
    pub scope_id: usize,
}

impl View for Symbol {
    type V = SymbolView;

    open spec fn view(&self) -> SymbolView {
        SymbolView {
            name: self.name@,
            kind: self.kind,
            range: self.range,
            byte_range: self.byte_range,
            scope_id: self.scope_id,
        }
    }
}

/// A use of a name.
#[derive(Debug)]
pub struct SymbolRef {
    pub name: String,
    pub range: Range,
    pub byte_range: std::ops::Range<usize>,
    /// Whether the name stands for a variable: it is neither the field of a
    /// selector nor a key of a map, unless the key of an export `name: name`.
    pub variable: bool,
}

/// What a [`SymbolRef`] holds.
pub struct RefView {
    pub name: Seq<char>,
    pub range: Range,
    pub byte_range: std::ops::Range<usize>,
    pub variable: bool,
}

impl View for SymbolRef {
    type V = RefView;

    open spec fn view(&self) -> RefView {
        RefView {
            name: self.name@,
            range: self.range,
            byte_range: self.byte_range,
            variable: self.variable,
        }
    }
}

/// An imported module and the variable that stands for it.
#[derive(Debug)]
pub struct ImportInfo {
    pub module: String,
    pub var_name: String,
}

/// What an [`ImportInfo`] holds.
pub struct ImportView {
    pub module: Seq<char>,
    pub var_name: Seq<char>,
}

impl View for ImportInfo {
    type V = ImportView;

    open spec fn view(&self) -> ImportView {
        ImportView { module: self.module@, var_name: self.var_name@ }
    }
}

pub open spec fn symbols_view(v: Seq<Symbol>) -> Seq<SymbolView> {
    v.map_values(|s: Symbol| s@)
}

pub open spec fn refs_view(v: Seq<SymbolRef>) -> Seq<RefView> {
    v.map_values(|s: SymbolRef| s@)
}

pub open spec fn imports_view(v: Seq<ImportInfo>) -> Seq<ImportView> {
    v.map_values(|s: ImportInfo| s@)
}

/// The number of the scope that a definition at `byte` belongs to.
pub open spec fn scope_id_at(scopes: Seq<Scope>, byte: usize) -> usize {
    match innermost(scopes, byte) {
        Some(k) => scopes[k].id,
        None => 0,
    }
}

/// The definition of the name at node `n`.
pub open spec fn symbol_of(
    source: Seq<char>,
    ns: Seq<NodeView>,
    n: int,
    kind: SymbolKind,
    scope_id: usize,
) -> SymbolView {
    SymbolView {
        name: text_or_empty(source, ns[n]),
        kind,
        range: range_of(source, ns[n]),
        byte_range: std::ops::Range { start: ns[n].start_byte, end: ns[n].end_byte },
        scope_id,
    }
}

/// What a name is that is bound to the value at node `v`.
pub open spec fn kind_of_value(ns: Seq<NodeView>, v: Option<int>) -> SymbolKind {
    match v {
        Some(v) => if ns[v].kind == "func_literal"@ {
            SymbolKind::Func
        } else if ns[v].kind == "import_expression"@ {
            SymbolKind::Import
        } else {
            SymbolKind::Var
        },
        None => SymbolKind::Var,
    }
}

/// The module that the value at node `v` imports.
pub open spec fn imported_path(source: Seq<char>, ns: Seq<NodeView>, v: Option<int>) -> Option<
    Seq<char>,
> {
    match v {
        Some(v) => if ns[v].kind == "import_expression"@ {
            match kind_child(ns, v, "string_literal"@) {
                Some(s) => Some(unquoted(text_or_empty(source, ns[s]))),
                None => None,
            }
        } else {
            None
        },
        None => None,
    }
}

/// The name and value that node `i` defines as a variable: a declaration of
/// any target, or an assignment with `:=` to an identifier.
pub open spec fn definition_at(ns: Seq<NodeView>, i: int) -> Option<(int, Option<int>)> {
    match binding(ns, i) {
        Some((n, v)) => if ns[i].kind == "var_declaration"@ || ns[n].kind == "identifier"@ {
            Some((n, v))
        } else {
            None
        },
        None => None,
    }
}

/// The parameters among the nodes `cs`.
pub open spec fn params_in(
    source: Seq<char>,
    ns: Seq<NodeView>,
    scopes: Seq<Scope>,
    cs: Seq<int>,
) -> Seq<SymbolView>
    decreases cs.len(),
{
    if cs.len() == 0 {
        seq![]
    } else {
        let rest = params_in(source, ns, scopes, cs.drop_last());
        let c = cs.last();
        if ns[c].kind == "identifier"@ {
            rest.push(
                symbol_of(
                    source,
                    ns,
                    c,
                    SymbolKind::Param,
                    scope_id_at(scopes, ns[c].start_byte),
                ),
            )
        } else {
            rest
        }
    }
}

/// The scope of the variables of the loop head at node `i`: that of the loop's
/// block.
pub open spec fn loop_scope(ns: Seq<NodeView>, scopes: Seq<Scope>, i: int) -> usize {
    let own = scope_id_at(scopes, ns[i].start_byte);
    match parent_of(ns, i) {
        Some(p) => match kind_child(ns, p, "block"@) {
            Some(b) => scope_id_at(scopes, ns[b].start_byte),
            None => own,
        },
        None => own,
    }
}

/// The loop variable at node `v`, where there is one.
pub open spec fn loop_variable(
    source: Seq<char>,
    ns: Seq<NodeView>,
    v: Option<int>,
    scope_id: usize,
) -> Seq<SymbolView> {
    match v {
        Some(n) => seq![symbol_of(source, ns, n, SymbolKind::ForVar, scope_id)],
        None => seq![],
    }
}

/// The definitions that node `i` makes.
pub open spec fn defs_at(source: Seq<char>, ns: Seq<NodeView>, scopes: Seq<Scope>, i: int) -> Seq<
    SymbolView,
> {
    if ns[i].kind == "var_declaration"@ || ns[i].kind == "assignment_statement"@ {
        match definition_at(ns, i) {
            Some((n, v)) => seq![
                symbol_of(
                    source,
                    ns,
                    n,
                    kind_of_value(ns, v),
                    scope_id_at(scopes, ns[n].start_byte),
                ),
            ],
            None => seq![],
        }
    } else if ns[i].kind == "parameter_list"@ || ns[i].kind == "variadic_parameter"@ {
        params_in(source, ns, scopes, kids(ns, i))
    } else if ns[i].kind == "for_in_clause"@ {
        loop_variable(source, ns, field_child(ns, i, "key"@), loop_scope(ns, scopes, i))
            + loop_variable(source, ns, field_child(ns, i, "value"@), loop_scope(ns, scopes, i))
    } else {
        seq![]
    }
}

/// The definitions that the first `n` nodes make.
pub open spec fn defs_upto(source: Seq<char>, ns: Seq<NodeView>, scopes: Seq<Scope>, n: int) -> Seq<
    SymbolView,
>
    decreases n,
{
    if n <= 0 {
        seq![]
    } else {
        defs_upto(source, ns, scopes, n - 1) + defs_at(source, ns, scopes, n - 1)
    }
}

/// Whether the identifier at node `i` stands where a name is defined.
pub open spec fn defining(ns: Seq<NodeView>, i: int) -> bool {
    match parent_of(ns, i) {
        Some(p) => if ns[p].kind == "var_declaration"@ {
            field_child(ns, p, "name"@) == Some(i)
        } else if ns[p].kind == "assignment_statement"@ {
            declares(ns, p) && field_child(ns, p, "left"@) == Some(i)
        } else if ns[p].kind == "parameter_list"@ || ns[p].kind == "variadic_parameter"@ {
            true
        } else if ns[p].kind == "for_in_clause"@ {
            field_child(ns, p, "key"@) == Some(i) || field_child(ns, p, "value"@) == Some(i)
        } else {
            false
        },
        None => false,
    }
}

/// Whether the identifier at node `i` stands for a variable: it is neither the
/// field of a selector nor a key of a map, unless the key of an export
/// `name: name`.
pub open spec fn names_variable(source: Seq<char>, ns: Seq<NodeView>, i: int) -> bool {
    match parent_of(ns, i) {
        Some(p) => if ns[p].kind == "selector_expression"@ {
            field_child(ns, p, "field"@) != Some(i)
        } else if entry_key(ns, p) == Some(i) {
            shorthand_key(source, ns, i)
        } else {
            true
        },
        None => true,
    }
}

/// The use of a name at node `i`.
pub open spec fn ref_of(source: Seq<char>, ns: Seq<NodeView>, i: int) -> RefView {
    RefView {
        name: text_or_empty(source, ns[i]),
        range: range_of(source, ns[i]),
        byte_range: std::ops::Range { start: ns[i].start_byte, end: ns[i].end_byte },
        variable: names_variable(source, ns, i),
    }
}

/// Whether node `i` uses a name.
pub open spec fn refers(ns: Seq<NodeView>, i: int) -> bool {
    ns[i].kind == "identifier"@ && !defining(ns, i)
}

/// The uses of names among the first `n` nodes.
pub open spec fn refs_upto(source: Seq<char>, ns: Seq<NodeView>, n: int) -> Seq<RefView>
    decreases n,
{
    if n <= 0 {
        seq![]
    } else if refers(ns, n - 1) {
        refs_upto(source, ns, n - 1).push(ref_of(source, ns, n - 1))
    } else {
        refs_upto(source, ns, n - 1)
    }
}

/// The import at node `i`.
pub open spec fn import_at(source: Seq<char>, ns: Seq<NodeView>, i: int) -> Option<ImportView> {
    match definition_at(ns, i) {
        Some((n, v)) => match imported_path(source, ns, v) {
            Some(p) => Some(
                ImportView { module: p, var_name: text_or_empty(source, ns[n]) },
            ),
            None => None,
        },
        None => None,
    }
}

/// The place of the import that `name` stands for.
pub open spec fn import_index(imports: Seq<ImportView>, name: Seq<char>) -> Option<int>
    decreases imports.len(),
{
    if imports.len() == 0 {
        None
    } else {
        match import_index(imports.drop_last(), name) {
            Some(k) => Some(k),
            None => if imports.last().var_name == name {
                Some(imports.len() - 1)
            } else {
                None
            },
        }
    }
}

/// The import that `name` stands for.
pub open spec fn import_named(imports: Seq<ImportView>, name: Seq<char>) -> Option<ImportView> {
    match import_index(imports, name) {
        Some(k) => Some(imports[k]),
        None => None,
    }
}

/// `imports` with `info` in it: in the place of an earlier import of its name,
/// or at the end.
pub open spec fn with_import(imports: Seq<ImportView>, info: ImportView) -> Seq<ImportView> {
    match import_index(imports, info.var_name) {
        Some(k) => imports.update(k, info),
        None => imports.push(info),
    }
}

/// `imports` with those at the first `n` nodes.
pub open spec fn imports_upto(
    source: Seq<char>,
    ns: Seq<NodeView>,
    imports: Seq<ImportView>,
    n: int,
) -> Seq<ImportView>
    decreases n,
{
    if n <= 0 {
        imports
    } else {
        let rest = imports_upto(source, ns, imports, n - 1);
        match import_at(source, ns, n - 1) {
            Some(info) => with_import(rest, info),
            None => rest,
        }
    }
}

/// What [`import_index`] finds: the first import of the name.
pub proof fn lemma_import_index(imports: Seq<ImportView>, name: Seq<char>)
    ensures
        match import_index(imports, name) {
            Some(k) => 0 <= k < imports.len() && imports[k].var_name == name && (forall|j: int|
                0 <= j < k ==> (#[trigger] imports[j]).var_name != name),
            None => forall|j: int| 0 <= j < imports.len() ==> (#[trigger] imports[j]).var_name != name,
        },
    decreases imports.len(),
{
    if imports.len() > 0 {
        let front = imports.drop_last();
        lemma_import_index(front, name);
        match import_index(front, name) {
            Some(k) => {
                assert forall|j: int| 0 <= j < k implies (#[trigger] imports[j]).var_name != name by {
                    assert(front[j] == imports[j]);
                }
            },
            None => {
                assert forall|j: int| 0 <= j < front.len() implies (#[trigger] imports[j]).var_name
                    != name by {
                    assert(front[j] == imports[j]);
                }
            },
        }
    }
}

/// Whether no two imports have one name.
pub open spec fn distinct_imports(imports: Seq<ImportView>) -> bool {
    forall|i: int, j: int|
        0 <= i < j < imports.len() ==> (#[trigger] imports[i]).var_name != (
        #[trigger] imports[j]).var_name
}

/// An import takes the place of an earlier one of its name and of no other.
pub proof fn law_last_import_wins(imports: Seq<ImportView>, info: ImportView, other: Seq<char>)
    requires
        distinct_imports(imports),
    ensures
        distinct_imports(with_import(imports, info)),
        import_named(with_import(imports, info), info.var_name) == Some(info),
        other != info.var_name ==> import_named(with_import(imports, info), other) == import_named(
            imports,
            other,
        ),
{
    let now = with_import(imports, info);
    lemma_import_index(imports, info.var_name);
    lemma_import_index(imports, other);
    lemma_import_index(now, info.var_name);
    lemma_import_index(now, other);
    match import_index(imports, info.var_name) {
        Some(k) => {
            assert(now[k] == info);
            if let Some(j) = import_index(imports, other) {
                if j != k {
                    assert(now[j] == imports[j]);
                }
            }
            if let Some(j) = import_index(now, other) {
                if j != k {
                    assert(now[j] == imports[j]);
                }
            }
        },
        None => {
            assert(now[imports.len() as int] == info);
            if let Some(j) = import_index(imports, other) {
                assert(now[j] == imports[j]);
            }
            if let Some(j) = import_index(now, other) {
                if j < imports.len() {
                    assert(now[j] == imports[j]);
                }
            }
        },
    }
}

/// A file has no two imports of one name.
pub proof fn law_imports_distinct(source: Seq<char>, ns: Seq<NodeView>, n: int)
    ensures
        distinct_imports(imports_upto(source, ns, seq![], n)),
    decreases n,
{
    if n > 0 {
        law_imports_distinct(source, ns, n - 1);
        if let Some(info) = import_at(source, ns, n - 1) {
            law_last_import_wins(imports_upto(source, ns, seq![], n - 1), info, seq![]);
        }
    }
}

proof fn lemma_scope_id(scopes: Seq<Scope>, byte: usize)
    requires
        scopes.len() > 0,
        forall|i: int| 0 <= i < scopes.len() ==> (#[trigger] scopes[i]).id == i,
    ensures
        scope_id_at(scopes, byte) < scopes.len(),
{
    law_innermost_smallest(scopes, byte);
}

proof fn lemma_params_scoped(source: Seq<char>, ns: Seq<NodeView>, scopes: Seq<Scope>, cs: Seq<int>)
    requires
        scopes.len() > 0,
        forall|i: int| 0 <= i < scopes.len() ==> (#[trigger] scopes[i]).id == i,
    ensures
        forall|i: int|
            0 <= i < params_in(source, ns, scopes, cs).len() ==> (#[trigger] params_in(
                source,
                ns,
                scopes,
                cs,
            )[i]).scope_id < scopes.len(),
    decreases cs.len(),
{
    if cs.len() > 0 {
        lemma_params_scoped(source, ns, scopes, cs.drop_last());
        lemma_scope_id(scopes, ns[cs.last()].start_byte);
    }
}

proof fn lemma_defs_scoped(source: Seq<char>, ns: Seq<NodeView>, scopes: Seq<Scope>, n: int)
    requires
        scopes.len() > 0,
        forall|i: int| 0 <= i < scopes.len() ==> (#[trigger] scopes[i]).id == i,
    ensures
        forall|i: int|
            0 <= i < defs_upto(source, ns, scopes, n).len() ==> (#[trigger] defs_upto(
                source,
                ns,
                scopes,
                n,
            )[i]).scope_id < scopes.len(),
    decreases n,
{
    if n > 0 {
        let k = n - 1;
        let rest = defs_upto(source, ns, scopes, k);
        let here = defs_at(source, ns, scopes, k);
        lemma_defs_scoped(source, ns, scopes, k);
        lemma_params_scoped(source, ns, scopes, kids(ns, k));
        if let Some((d, _)) = definition_at(ns, k) {
            lemma_scope_id(scopes, ns[d].start_byte);
        }
        lemma_scope_id(scopes, ns[k].start_byte);
        if let Some(p) = parent_of(ns, k) {
            if let Some(b) = kind_child(ns, p, "block"@) {
                lemma_scope_id(scopes, ns[b].start_byte);
            }
        }
        assert forall|i: int| 0 <= i < here.len() implies (#[trigger] here[i]).scope_id
            < scopes.len() by {}
        assert forall|i: int| 0 <= i < (rest + here).len() implies (#[trigger] (rest
            + here)[i]).scope_id < scopes.len() by {
            if i >= rest.len() {
                assert((rest + here)[i] == here[i - rest.len()]);
            }
        }
    }
}

/// Every definition of a file belongs to one of its scopes.
pub proof fn law_definitions_have_scopes(source: Seq<char>, ns: Seq<NodeView>, n: int)
    requires
        ns.len() <= usize::MAX,
        scopes_of(ns).len() > 0,
    ensures
        forall|i: int|
            0 <= i < defs_upto(source, ns, scopes_of(ns), n).len() ==> (#[trigger] defs_upto(
                source,
                ns,
                scopes_of(ns),
                n,
            )[i]).scope_id < scopes_of(ns).len(),
{
    law_scopes_numbered(ns, ns.len() as int);
    lemma_defs_scoped(source, ns, scopes_of(ns), n);
}

/// The number of the scope that a definition at `byte` belongs to.
fn find_scope(scopes: &Vec<Scope>, byte: usize) -> (r: usize)
    ensures
        r == scope_id_at(scopes@, byte),
{
    match find_innermost(scopes, byte) {
        Some(k) => scopes[k].id,
        None => 0,
    }
}

/// The definition of the name at node `n`.
fn make_symbol(
    source: &str,
    places: &Places,
    tree: &SyntaxTree,
    n: usize,
    kind: SymbolKind,
    scope_id: usize,
) -> (r: Symbol)
    requires
        tree.has(n),
        places.are_of(source@),
    ensures
        r@ == symbol_of(source@, tree@.nodes, n as int, kind, scope_id),
{
    let node = &tree.nodes[n];
    Symbol {
        name: tree.text_or_empty(source, n).to_string(),
        kind,
        range: places.range(node, Ghost(source@)),
        byte_range: std::ops::Range { start: node.start_byte, end: node.end_byte },
        scope_id,
    }
}

/// What a name is that is bound to the value at node `v`.
fn classify_value(tree: &SyntaxTree, v: Option<usize>) -> (r: SymbolKind)
    requires
        v matches Some(x) ==> tree.has(x),
    ensures
        r == kind_of_value(tree@.nodes, index(v)),
{
    match v {
        Some(v) => if tree.is(v, "func_literal") {
            SymbolKind::Func
        } else if tree.is(v, "import_expression") {
            SymbolKind::Import
        } else {
            SymbolKind::Var
        },
        None => SymbolKind::Var,
    }
}

/// The module that the value at node `v` imports.
fn extract_import_path(source: &str, tree: &SyntaxTree, v: Option<usize>) -> (r: Option<String>)
    requires
        v matches Some(x) ==> tree.has(x),
    ensures
        crate::text::opt_view(r) == imported_path(source@, tree@.nodes, index(v)),
{
    let v = match v {
        Some(v) => v,
        None => {
            return None;
        },
    };
    if !tree.is(v, "import_expression") {
        return None;
    }
    match tree.child_of_kind(v, "string_literal") {
        Some(s) => Some(string(&unquote(tree.text_or_empty(source, s)))),
        None => None,
    }
}

/// The name and value that node `i` defines as a variable.
pub(crate) fn find_definition(tree: &SyntaxTree, i: usize) -> (r: Option<(usize, Option<usize>)>)
    requires
        tree.has(i),
    ensures
        match r {
            Some((n, v)) => definition_at(tree@.nodes, i as int) == Some((n as int, index(v)))
                && tree.has(n) && (v matches Some(x) ==> tree.has(x)),
            None => definition_at(tree@.nodes, i as int) is None,
        },
{
    match find_binding(tree, i) {
        Some((n, v)) => if tree.is(i, "var_declaration") || tree.is(n, "identifier") {
            Some((n, v))
        } else {
            None
        },
        None => None,
    }
}

/// Appends `s` to `defs`.
fn push_symbol(defs: &mut Vec<Symbol>, s: Symbol)
    ensures
        symbols_view(final(defs)@) == symbols_view(old(defs)@).push(s@),
{
    let ghost before = symbols_view(defs@);
    defs.push(s);
    assert(symbols_view(defs@) =~= before.push(s@));
}

/// The parameters that are children of node `i`.
fn handle_parameters(
    source: &str,
    places: &Places,
    tree: &SyntaxTree,
    scopes: &Vec<Scope>,
    i: usize,
    defs: &mut Vec<Symbol>,
)
    requires
        tree.has(i),
        places.are_of(source@),
    ensures
        symbols_view(final(defs)@) == symbols_view(old(defs)@) + params_in(
            source@,
            tree@.nodes,
            scopes@,
            kids(tree@.nodes, i as int),
        ),
{
    let cs = tree.children(i);
    let ghost all = kids(tree@.nodes, i as int);
    let mut k: usize = 0;
    assert(all.take(0) =~= seq![]);
    assert(symbols_view(defs@) + params_in(source@, tree@.nodes, scopes@, all.take(0))
        =~= symbols_view(defs@));
    while k < cs.len()
        invariant
            k <= cs@.len(),
            places.are_of(source@),
            all == indices(cs@),
            forall|j: int| 0 <= j < cs@.len() ==> #[trigger] cs@[j] < tree.nodes@.len(),
            symbols_view(defs@) == symbols_view(old(defs)@) + params_in(
                source@,
                tree@.nodes,
                scopes@,
                all.take(k as int),
            ),
        decreases cs@.len() - k,
    {
        let c = cs[k];
        assert(all.take(k + 1).drop_last() =~= all.take(k as int));
        assert(all.take(k + 1).last() == c);
        if tree.is(c, "identifier") {
            let scope_id = find_scope(scopes, tree.nodes[c].start_byte);
            let ghost rest = params_in(source@, tree@.nodes, scopes@, all.take(k as int));
            let s = make_symbol(source, places, tree, c, SymbolKind::Param, scope_id);
            proof {
                assert((symbols_view(old(defs)@) + rest).push(s@) =~= symbols_view(old(defs)@)
                    + rest.push(s@));
            }
            push_symbol(defs, s);
        }
        k += 1;
    }
    assert(all.take(all.len() as int) =~= all);
}

/// The scope of the variables of the loop head at node `i`.
fn find_for_body_scope(tree: &SyntaxTree, scopes: &Vec<Scope>, i: usize) -> (r: usize)
    requires
        tree.has(i),
    ensures
        r == loop_scope(tree@.nodes, scopes@, i as int),
{
    if let Some(p) = tree.parent(i) {
        if let Some(b) = tree.child_of_kind(p, "block") {
            return find_scope(scopes, tree.nodes[b].start_byte);
        }
    }
    find_scope(scopes, tree.nodes[i].start_byte)
}

/// The variables of the loop head at node `i`.
fn handle_for_in(
    source: &str,
    places: &Places,
    tree: &SyntaxTree,
    scopes: &Vec<Scope>,
    i: usize,
    defs: &mut Vec<Symbol>,
)
    requires
        tree.has(i),
        places.are_of(source@),
    ensures
        symbols_view(final(defs)@) == symbols_view(old(defs)@) + (loop_variable(
            source@,
            tree@.nodes,
            field_child(tree@.nodes, i as int, "key"@),
            loop_scope(tree@.nodes, scopes@, i as int),
        ) + loop_variable(
            source@,
            tree@.nodes,
            field_child(tree@.nodes, i as int, "value"@),
            loop_scope(tree@.nodes, scopes@, i as int),
        )),
{
    let scope_id = find_for_body_scope(tree, scopes, i);
    if let Some(key) = tree.child_by_field_name(i, "key") {
        push_symbol(defs, make_symbol(source, places, tree, key, SymbolKind::ForVar, scope_id));
    }
    if let Some(value) = tree.child_by_field_name(i, "value") {
        push_symbol(defs, make_symbol(source, places, tree, value, SymbolKind::ForVar, scope_id));
    }
}

/// Whether the identifier at node `i` stands where a name is defined.
fn is_definition_position(tree: &SyntaxTree, i: usize) -> (r: bool)
    requires
        tree.has(i),
    ensures
        r == defining(tree@.nodes, i as int),
{
    let p = match tree.parent(i) {
        Some(p) => p,
        None => {
            return false;
        },
    };
    if tree.is(p, "var_declaration") {
        tree.child_by_field_name(p, "name") == Some(i)
    } else if tree.is(p, "assignment_statement") {
        is_declaration(tree, p) && tree.child_by_field_name(p, "left") == Some(i)
    } else if tree.is(p, "parameter_list") || tree.is(p, "variadic_parameter") {
        true
    } else if tree.is(p, "for_in_clause") {
        tree.child_by_field_name(p, "key") == Some(i) || tree.child_by_field_name(p, "value")
            == Some(i)
    } else {
        false
    }
}

/// Whether the identifier at node `i` stands for a variable, where `es` are the
/// entries of the map that the file exports.
pub(crate) fn is_variable(source: &str, tree: &SyntaxTree, es: &Vec<usize>, i: usize) -> (r: bool)
    requires
        tree.has(i),
        indices(es@) == export_entries(tree@.nodes),
        forall|k: int| 0 <= k < es@.len() ==> #[trigger] es@[k] < tree.nodes@.len(),
    ensures
        r == names_variable(source@, tree@.nodes, i as int),
{
    match tree.parent(i) {
        Some(p) => if tree.is(p, "selector_expression") {
            tree.child_by_field_name(p, "field") != Some(i)
        } else if find_key(tree, p) == Some(i) {
            is_shorthand_key(source, tree, es, i)
        } else {
            true
        },
        None => true,
    }
}

/// The place of the import that `name` stands for.
pub(crate) fn find_import(imports: &Vec<ImportInfo>, name: &str) -> (r: Option<usize>)
    ensures
        index(r) == import_index(imports_view(imports@), name@),
        r matches Some(k) ==> k < imports@.len(),
{
    let ghost all = imports_view(imports@);
    let mut i: usize = 0;
    assert(all.take(0) =~= seq![]);
    while i < imports.len()
        invariant
            i <= imports@.len(),
            all == imports_view(imports@),
            import_index(all.take(i as int), name@) is None,
        decreases imports@.len() - i,
    {
        assert(all.take(i + 1).drop_last() =~= all.take(i as int));
        assert(all.take(i + 1).last() == imports@[i as int]@);
        if same_str(imports[i].var_name.as_str(), name) {
            proof {
                lemma_import_index_prefix(all, name@, i + 1);
            }
            return Some(i);
        }
        i += 1;
    }
    assert(all.take(all.len() as int) =~= all);
    None
}

/// What a prefix finds the whole finds too.
proof fn lemma_import_index_prefix(imports: Seq<ImportView>, name: Seq<char>, n: int)
    requires
        0 <= n <= imports.len(),
        import_index(imports.take(n), name) is Some,
    ensures
        import_index(imports, name) == import_index(imports.take(n), name),
    decreases imports.len() - n,
{
    if n == imports.len() {
        assert(imports.take(n) =~= imports);
    } else {
        assert(imports.take(n + 1).drop_last() =~= imports.take(n));
        lemma_import_index_prefix(imports, name, n + 1);
    }
}

/// Puts `info` among the imports.
fn insert_import(imports: &mut Vec<ImportInfo>, info: ImportInfo)
    ensures
        imports_view(final(imports)@) == with_import(imports_view(old(imports)@), info@),
{
    let ghost before = imports_view(imports@);
    match find_import(imports, info.var_name.as_str()) {
        Some(k) => {
            imports.set(k, info);
            assert(imports_view(imports@) =~= before.update(k as int, info@));
        },
        None => {
            imports.push(info);
            assert(imports_view(imports@) =~= before.push(info@));
        },
    }
}

/// The definition and the import that the declaration or assignment at node
/// `i` makes.
fn handle_definition(
    source: &str,
    places: &Places,
    tree: &SyntaxTree,
    scopes: &Vec<Scope>,
    i: usize,
    defs: &mut Vec<Symbol>,
    imports: &mut Vec<ImportInfo>,
)
    requires
        tree.has(i),
        places.are_of(source@),
        tree@.nodes[i as int].kind == "var_declaration"@ || tree@.nodes[i as int].kind
            == "assignment_statement"@,
    ensures
        symbols_view(final(defs)@) == symbols_view(old(defs)@) + defs_at(
            source@,
            tree@.nodes,
            scopes@,
            i as int,
        ),
        imports_view(final(imports)@) == (match import_at(source@, tree@.nodes, i as int) {
            Some(info) => with_import(imports_view(old(imports)@), info),
            None => imports_view(old(imports)@),
        }),
{
    let (n, v) = match find_definition(tree, i) {
        Some(d) => d,
        None => {
            assert(symbols_view(defs@) =~= symbols_view(defs@) + Seq::<SymbolView>::empty());
            return;
        },
    };
    let kind = classify_value(tree, v);
    let scope_id = find_scope(scopes, tree.nodes[n].start_byte);
    if let Some(module) = extract_import_path(source, tree, v) {
        let var_name = tree.text_or_empty(source, n).to_string();
        insert_import(imports, ImportInfo { module, var_name });
    }
    let ghost before = symbols_view(defs@);
    let s = make_symbol(source, places, tree, n, kind, scope_id);
    assert(before.push(s@) =~= before + seq![s@]);
    push_symbol(defs, s);
}

/// Collects the definitions, references and imports of a file, behind those
/// that the lists hold already.
pub fn extract_symbols(
    tree: &SyntaxTree,
    source: &str,
    scopes: &Vec<Scope>,
    defs: &mut Vec<Symbol>,
    refs: &mut Vec<SymbolRef>,
    imports: &mut Vec<ImportInfo>,
)
    ensures
        symbols_view(final(defs)@) == symbols_view(old(defs)@) + defs_upto(
            source@,
            tree@.nodes,
            scopes@,
            tree@.nodes.len() as int,
        ),
        refs_view(final(refs)@) == refs_view(old(refs)@) + refs_upto(
            source@,
            tree@.nodes,
            tree@.nodes.len() as int,
        ),
        imports_view(final(imports)@) == imports_upto(
            source@,
            tree@.nodes,
            imports_view(old(imports)@),
            tree@.nodes.len() as int,
        ),
{
    let n = tree.nodes.len();
    let places = Places::of(source);
    let es = entries(tree);
    let ghost ns = tree@.nodes;
    let mut i: usize = 0;
    assert(symbols_view(defs@) + defs_upto(source@, ns, scopes@, 0) =~= symbols_view(defs@));
    assert(refs_view(refs@) + refs_upto(source@, ns, 0) =~= refs_view(refs@));
    while i < n
        invariant
            i <= n == tree.nodes@.len(),
            ns == tree@.nodes,
            places.are_of(source@),
            indices(es@) == export_entries(ns),
            forall|k: int| 0 <= k < es@.len() ==> #[trigger] es@[k] < tree.nodes@.len(),
            symbols_view(defs@) == symbols_view(old(defs)@) + defs_upto(
                source@,
                ns,
                scopes@,
                i as int,
            ),
            refs_view(refs@) == refs_view(old(refs)@) + refs_upto(source@, ns, i as int),
            imports_view(imports@) == imports_upto(
                source@,
                ns,
                imports_view(old(imports)@),
                i as int,
            ),
        decreases n - i,
    {
        let ghost first = symbols_view(old(defs)@);
        let ghost before = defs_upto(source@, ns, scopes@, i as int);
        let ghost here = defs_at(source@, ns, scopes@, i as int);
        assert(first + (before + here) =~= (first + before) + here);
        assert(first + before =~= (first + before) + Seq::<SymbolView>::empty());
        if tree.is(i, "var_declaration") || tree.is(i, "assignment_statement") {
            proof {
                lemma_kinds_differ();
            }
            handle_definition(source, &places, tree, scopes, i, defs, imports);
        } else if tree.is(i, "parameter_list") || tree.is(i, "variadic_parameter") {
            proof {
                lemma_kinds_differ();
            }
            handle_parameters(source, &places, tree, scopes, i, defs);
        } else if tree.is(i, "for_in_clause") {
            proof {
                lemma_kinds_differ();
            }
            handle_for_in(source, &places, tree, scopes, i, defs);
        } else if tree.is(i, "identifier") {
            if !is_definition_position(tree, i) {
                let node = &tree.nodes[i];
                let ghost seen = refs_view(refs@);
                refs.push(
                    SymbolRef {
                        name: tree.text_or_empty(source, i).to_string(),
                        range: places.range(node, Ghost(source@)),
                        byte_range: std::ops::Range { start: node.start_byte, end: node.end_byte },
                        variable: is_variable(source, tree, &es, i),
                    },
                );
                assert(refs_view(refs@) =~= seen.push(ref_of(source@, ns, i as int)));
                assert(seen.push(ref_of(source@, ns, i as int)) =~= refs_view(old(refs)@)
                    + refs_upto(source@, ns, i + 1));
            }
        }
        i += 1;
    }
}

/// The names of the kinds of nodes that make definitions are not
/// `identifier`.
proof fn lemma_kinds_differ()
    ensures
        "var_declaration"@ != "identifier"@,
        "assignment_statement"@ != "identifier"@,
        "parameter_list"@ != "identifier"@,
        "variadic_parameter"@ != "identifier"@,
        "for_in_clause"@ != "identifier"@,
{
    reveal_strlit("var_declaration");
    reveal_strlit("assignment_statement");
    reveal_strlit("parameter_list");
    reveal_strlit("variadic_parameter");
    reveal_strlit("for_in_clause");
    reveal_strlit("identifier");
    assert("identifier"@.len() == 10);
}

} // verus!
