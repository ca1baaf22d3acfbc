//! An open document and what is known of it.

use vstd::prelude::*;
use vstd::string::*;

use crate::grammar::parse;
use crate::grammar::parsed;
use crate::scope::build_scopes;
use crate::scope::find_innermost;
use crate::scope::innermost;
use crate::scope::law_innermost_smallest;
use crate::scope::law_scopes_numbered;
use crate::scope::scopes_of;
use crate::scope::Scope;
use crate::symbols::defs_upto;
use crate::symbols::extract_symbols;
use crate::symbols::find_import;
use crate::symbols::import_named;
use crate::symbols::imports_upto;
use crate::symbols::imports_view;
use crate::symbols::refs_upto;
use crate::symbols::refs_view;
use crate::symbols::symbols_view;
use crate::symbols::ImportInfo;
use crate::symbols::ImportView;
use crate::symbols::RefView;
use crate::symbols::Symbol;
use crate::symbols::SymbolRef;
use crate::symbols::SymbolView;
use crate::syntax::index;
use crate::syntax::SyntaxTree;
use crate::syntax::TreeView;
use crate::text::same_str;

verus! {

/// A document with its syntax tree and the names in it.
#[derive(Debug)]
pub struct FileState {
    pub uri: String,
    pub source: String,
    pub tree: SyntaxTree,
    pub defs: Vec<Symbol>,
    pub refs: Vec<SymbolRef>,
    /// The imports, no two of one name.
    pub imports: Vec<ImportInfo>,
    pub scopes: Vec<Scope>,
}

/// What a [`FileState`] holds.
#[verifier::ext_equal]
pub struct FileView {
    pub uri: Seq<char>,
    pub source: Seq<char>,
    pub tree: TreeView,
    pub defs: Seq<SymbolView>,
    pub refs: Seq<RefView>,
    pub imports: Seq<ImportView>,
    pub scopes: Seq<Scope>,
}

impl View for FileState {
    type V = FileView;

    open spec fn view(&self) -> FileView {
        FileView {
            uri: self.uri@,
            source: self.source@,
            tree: self.tree@,
            defs: symbols_view(self.defs@),
            refs: refs_view(self.refs@),
            imports: imports_view(self.imports@),
            scopes: self.scopes@,
        }
    }
}

/// What there is to know of a text with its syntax tree.
pub open spec fn analysed(uri: Seq<char>, source: Seq<char>, tree: TreeView) -> FileView {
    let n = tree.nodes.len() as int;
    FileView {
        uri,
        source,
        tree,
        defs: defs_upto(source, tree.nodes, scopes_of(tree.nodes), n),
        refs: refs_upto(source, tree.nodes, n),
        imports: imports_upto(source, tree.nodes, seq![], n),
        scopes: scopes_of(tree.nodes),
    }
}

/// The place of the first definition of `name` in scope `scope` that does not
/// begin behind `byte`, among those from `from` on.
pub open spec fn def_from(
    defs: Seq<SymbolView>,
    name: Seq<char>,
    scope: usize,
    byte: usize,
    from: int,
) -> Option<int>
    decreases defs.len() - from,
{
    if from >= defs.len() {
        None
    } else if defs[from].name == name && defs[from].scope_id == scope
        && defs[from].byte_range.start <= byte {
        Some(from)
    } else {
        def_from(defs, name, scope, byte, from + 1)
    }
}

/// The definition of `name` that is visible at `byte` from scope `scope`
/// outwards.
pub open spec fn def_outwards(f: FileView, name: Seq<char>, byte: usize, scope: Option<int>) -> Option<
    int,
>
    decreases
            (match scope {
                Some(s) => s + 1,
                None => 0,
            }),
{
    match scope {
        Some(s) => match def_from(f.defs, name, s as usize, byte, 0) {
            Some(d) => Some(d),
            None => match f.scopes[s].parent {
                Some(p) => if p < s {
                    def_outwards(f, name, byte, Some(p as int))
                } else {
                    None
                },
                None => None,
            },
        },
        None => None,
    }
}

/// The place among the definitions of the one that `name` means at `byte`.
pub open spec fn def_at(f: FileView, name: Seq<char>, byte: usize) -> Option<int> {
    def_outwards(f, name, byte, innermost(f.scopes, byte))
}

/// The definition that `name` means at `byte`.
pub open spec fn resolution(f: FileView, name: Seq<char>, byte: usize) -> Option<SymbolView> {
    match def_at(f, name, byte) {
        Some(d) => Some(f.defs[d]),
        None => None,
    }
}

/// What [`def_from`] finds.
pub proof fn lemma_def_from(
    defs: Seq<SymbolView>,
    name: Seq<char>,
    scope: usize,
    byte: usize,
    from: int,
)
    requires
        0 <= from,
    ensures
        match def_from(defs, name, scope, byte, from) {
            Some(d) => from <= d < defs.len() && defs[d].name == name && defs[d].scope_id == scope
                && defs[d].byte_range.start <= byte && (forall|k: int|
                from <= k < d ==> !((#[trigger] defs[k]).name == name && defs[k].scope_id == scope
                    && defs[k].byte_range.start <= byte)),
            None => forall|k: int|
                from <= k < defs.len() ==> !((#[trigger] defs[k]).name == name && defs[k].scope_id
                    == scope && defs[k].byte_range.start <= byte),
        },
    decreases defs.len() - from,
{
    if from < defs.len() && !(defs[from].name == name && defs[from].scope_id == scope
        && defs[from].byte_range.start <= byte) {
        lemma_def_from(defs, name, scope, byte, from + 1);
    }
}

/// Whether scope `outer` is `inner` or one that `inner` lies in.
pub open spec fn reaches(scopes: Seq<Scope>, inner: int, outer: int) -> bool
    decreases inner,
{
    inner == outer || match scopes[inner].parent {
        Some(p) => p < inner && reaches(scopes, p as int, outer),
        None => false,
    }
}

/// What [`def_outwards`] finds.
pub proof fn lemma_def_outwards(f: FileView, name: Seq<char>, byte: usize, s: int)
    requires
        0 <= s < f.scopes.len() <= usize::MAX,
    ensures
        match def_outwards(f, name, byte, Some(s)) {
            Some(d) => 0 <= d < f.defs.len() && f.defs[d].name == name
                && f.defs[d].byte_range.start <= byte && reaches(
                f.scopes,
                s,
                f.defs[d].scope_id as int,
            ),
            None => forall|d: int|
                0 <= d < f.defs.len() && (#[trigger] f.defs[d]).name == name
                    && f.defs[d].byte_range.start <= byte ==> !reaches(
                    f.scopes,
                    s,
                    f.defs[d].scope_id as int,
                ),
        },
    decreases s,
{
    lemma_def_from(f.defs, name, s as usize, byte, 0);
    if def_from(f.defs, name, s as usize, byte, 0) is None {
        if let Some(p) = f.scopes[s].parent {
            if p < s {
                lemma_def_outwards(f, name, byte, p as int);
            }
        }
    }
}

/// A name means a definition of that name that does not begin behind it, in a
/// scope around it; it means none only where there is no such definition.
pub proof fn law_resolution_in_scope(f: FileView, name: Seq<char>, byte: usize)
    requires
        f.scopes.len() <= usize::MAX,
    ensures
        match (resolution(f, name, byte), innermost(f.scopes, byte)) {
            (Some(d), Some(s)) => d.name == name && d.byte_range.start <= byte && reaches(
                f.scopes,
                s,
                d.scope_id as int,
            ),
            (None, Some(s)) => forall|d: int|
                0 <= d < f.defs.len() && (#[trigger] f.defs[d]).name == name
                    && f.defs[d].byte_range.start <= byte ==> !reaches(
                    f.scopes,
                    s,
                    f.defs[d].scope_id as int,
                ),
            (d, None) => d is None,
        },
{
    law_innermost_smallest(f.scopes, byte);
    if let Some(s) = innermost(f.scopes, byte) {
        lemma_def_outwards(f, name, byte, s);
    }
}

/// An inner definition hides those of the same name in the scopes around it.
pub proof fn law_inner_shadows(f: FileView, name: Seq<char>, byte: usize, s: int, d: int)
    requires
        innermost(f.scopes, byte) == Some(s),
        0 <= s <= usize::MAX,
        0 <= d < f.defs.len(),
        f.defs[d].name == name,
        f.defs[d].scope_id == s,
        f.defs[d].byte_range.start <= byte,
    ensures
        resolution(f, name, byte) matches Some(r) && r.scope_id == s,
{
    lemma_def_from(f.defs, name, s as usize, byte, 0);
}

proof fn lemma_nearest(f: FileView, name: Seq<char>, byte: usize, s: int)
    requires
        0 <= s < f.scopes.len() <= usize::MAX,
    ensures
        def_outwards(f, name, byte, Some(s)) matches Some(d) ==> forall|j: int|
            0 <= j < f.defs.len() && (#[trigger] f.defs[j]).name == name && f.defs[j].byte_range.start
                <= byte && reaches(f.scopes, s, f.defs[j].scope_id as int) ==> reaches(
                f.scopes,
                f.defs[d].scope_id as int,
                f.defs[j].scope_id as int,
            ) && (f.defs[j].scope_id == f.defs[d].scope_id ==> d <= j),
    decreases s,
{
    lemma_def_from(f.defs, name, s as usize, byte, 0);
    if def_from(f.defs, name, s as usize, byte, 0) is None {
        if let Some(p) = f.scopes[s].parent {
            if p < s {
                lemma_nearest(f, name, byte, p as int);
            }
        }
    }
}

/// A name means the nearest of the definitions that it can mean: whichever
/// other one is visible from it lies in the same scope behind it, or in a scope
/// further out.
pub proof fn law_nearest_definition(f: FileView, name: Seq<char>, byte: usize, s: int, j: int)
    requires
        f.scopes.len() <= usize::MAX,
        innermost(f.scopes, byte) == Some(s),
        0 <= j < f.defs.len(),
        f.defs[j].name == name,
        f.defs[j].byte_range.start <= byte,
        reaches(f.scopes, s, f.defs[j].scope_id as int),
    ensures
        exists|k: int|
            0 <= k < f.defs.len() && resolution(f, name, byte) == Some(#[trigger] f.defs[k])
                && reaches(f.scopes, f.defs[k].scope_id as int, f.defs[j].scope_id as int) && (
            f.defs[j].scope_id == f.defs[k].scope_id ==> k <= j),
{
    law_innermost_smallest(f.scopes, byte);
    lemma_def_outwards(f, name, byte, s);
    lemma_nearest(f, name, byte, s);
    let k = def_at(f, name, byte)->0;
    assert(resolution(f, name, byte) == Some(f.defs[k]));
}

impl FileState {
    /// Whether all that the document knows of its text is what its text and
    /// tree say.
    pub open spec fn wf(&self) -> bool {
        self@ == analysed(self.uri@, self.source@, self.tree@)
    }

    /// The document with the given text, whose syntax tree is `tree`.
    pub fn from_tree(uri: String, source: String, tree: SyntaxTree) -> (r: FileState)
        ensures
            r.wf(),
            r.uri == uri,
            r.source == source,
            r.tree == tree,
            r@ == analysed(uri@, source@, tree@),
    {
        let mut scopes: Vec<Scope> = Vec::new();
        let mut defs: Vec<Symbol> = Vec::new();
        let mut refs: Vec<SymbolRef> = Vec::new();
        let mut imports: Vec<ImportInfo> = Vec::new();
        assert(symbols_view(defs@) =~= seq![]);
        assert(refs_view(refs@) =~= seq![]);
        assert(imports_view(imports@) =~= seq![]);
        build_scopes(&tree, &mut scopes);
        extract_symbols(&tree, source.as_str(), &scopes, &mut defs, &mut refs, &mut imports);
        proof {
            let n = tree@.nodes.len() as int;
            let d = defs_upto(source@, tree@.nodes, scopes@, n);
            let u = refs_upto(source@, tree@.nodes, n);
            assert(Seq::<SymbolView>::empty() + d =~= d);
            assert(Seq::<RefView>::empty() + u =~= u);
        }
        FileState { uri, source, tree, defs, refs, imports, scopes }
    }

    /// Parses `source`; none where the parser gives no tree.
    pub fn parse(uri: String, source: String, language: &tree_sitter::Language) -> (r: Option<
        FileState,
    >)
        ensures
            match parsed(*language, source@) {
                Some(t) => r matches Some(f) && f.wf() && f@ == analysed(uri@, source@, t),
                None => r is None,
            },
    {
        match parse(language, source.as_str()) {
            Some(tree) => Some(FileState::from_tree(uri, source, tree)),
            None => None,
        }
    }

    /// Takes on a new text; keeps the old one where the parser gives no tree.
    pub fn reparse(&mut self, source: String, language: &tree_sitter::Language)
        requires
            old(self).wf(),
        ensures
            final(self).wf(),
            match parsed(*language, source@) {
                Some(t) => final(self)@ == analysed(old(self).uri@, source@, t),
                None => *final(self) == *old(self),
            },
    {
        if let Some(tree) = parse(language, source.as_str()) {
            self.replace(source, tree);
        }
    }

    /// Takes on a new text, whose syntax tree is `tree`.
    pub fn replace(&mut self, source: String, tree: SyntaxTree)
        ensures
            final(self).wf(),
            final(self)@ == analysed(old(self).uri@, source@, tree@),
    {
        let uri = self.uri.clone();
        *self = FileState::from_tree(uri, source, tree);
    }

    /// The innermost scope that holds `byte`.
    pub fn scope_at(&self, byte: usize) -> (r: Option<usize>)
        ensures
            index(r) == innermost(self.scopes@, byte),
            r matches Some(s) ==> s < self.scopes@.len(),
    {
        find_innermost(&self.scopes, byte)
    }

    /// The first definition of `name` in scope `scope` that does not begin
    /// behind `byte`.
    fn find_def(&self, name: &str, scope: usize, byte: usize) -> (r: Option<usize>)
        ensures
            index(r) == def_from(self@.defs, name@, scope, byte, 0),
            r matches Some(d) ==> d < self.defs@.len(),
    {
        let mut i: usize = 0;
        while i < self.defs.len()
            invariant
                i <= self.defs@.len(),
                def_from(self@.defs, name@, scope, byte, 0) == def_from(
                    self@.defs,
                    name@,
                    scope,
                    byte,
                    i as int,
                ),
            decreases self.defs@.len() - i,
        {
            let d = &self.defs[i];
            assert(self@.defs[i as int] == d@);
            if d.scope_id == scope && d.byte_range.start <= byte && same_str(
                d.name.as_str(),
                name,
            ) {
                return Some(i);
            }
            i += 1;
        }
        None
    }

    /// The place among the definitions of the one that `name` means at
    /// `byte`.
    pub(crate) fn resolve_index(&self, name: &str, byte: usize) -> (r: Option<usize>)
        requires
            self.wf(),
        ensures
            index(r) == def_at(self@, name@, byte),
            r matches Some(d) ==> d < self.defs@.len(),
    {
        proof {
            assert(self.tree.nodes.len() == self.tree@.nodes.len());
            law_scopes_numbered(self.tree@.nodes, self.tree@.nodes.len() as int);
        }
        let mut scope: Option<usize> = self.scope_at(byte);
        loop
            invariant
                scope matches Some(s) ==> s < self.scopes@.len(),
                forall|i: int|
                    0 <= i < self.scopes@.len() ==> ((#[trigger] self.scopes@[i]).parent matches Some(
                        p,
                    ) ==> p < i),
                def_at(self@, name@, byte) == def_outwards(self@, name@, byte, index(scope)),
            decreases
                    (match scope {
                        Some(s) => s + 1,
                        None => 0,
                    }),
        {
            let s = match scope {
                Some(s) => s,
                None => {
                    return None;
                },
            };
            if let Some(d) = self.find_def(name, s, byte) {
                return Some(d);
            }
            assert(self@.scopes[s as int] == self.scopes@[s as int]);
            scope = self.scopes[s].parent;
        }
    }

    /// The definition that `name` means at `byte`, looked for from the
    /// innermost scope outwards.
    pub fn resolve_def(&self, name: &str, byte: usize) -> (r: Option<&Symbol>)
        requires
            self.wf(),
        ensures
            match r {
                Some(d) => resolution(self@, name@, byte) == Some(d@),
                None => resolution(self@, name@, byte) is None,
            },
    {
        match self.resolve_index(name, byte) {
            Some(d) => {
                assert(self@.defs[d as int] == self.defs@[d as int]@);
                Some(&self.defs[d])
            },
            None => None,
        }
    }

    /// The import that `name` stands for.
    pub fn import(&self, name: &str) -> (r: Option<&ImportInfo>)
        ensures
            match r {
                Some(i) => import_named(self@.imports, name@) == Some(i@),
                None => import_named(self@.imports, name@) is None,
            },
    {
        match find_import(&self.imports, name) {
            Some(k) => {
                assert(self@.imports[k as int] == self.imports@[k as int]@);
                Some(&self.imports[k])
            },
            None => None,
        }
    }
}

} // verus!
