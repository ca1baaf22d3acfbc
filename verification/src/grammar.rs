//! Parsing with a tree-sitter grammar.

use vstd::prelude::*;

use crate::syntax::Node;
use crate::syntax::Point;
use crate::syntax::SyntaxTree;
use crate::syntax::TreeView;

verus! {

/// A tree-sitter grammar, opaque here.
#[verifier::external_type_specification]
#[verifier::external_body]
pub struct ExLanguage(tree_sitter::Language);

/// A syntax tree of tree-sitter, opaque here.
#[verifier::external_type_specification]
#[verifier::external_body]
pub struct ExTree(tree_sitter::Tree);

/// The nodes of a tree of tree-sitter, in the order of
/// `tree_sitter::TreeCursor::goto_descendant`.
pub uninterp spec fn nodes_of(tree: tree_sitter::Tree) -> TreeView;

/// The tree that tree-sitter's parser builds for a text with a grammar: none
/// where the grammar was made for another version of the parser.
pub uninterp spec fn parsed(language: tree_sitter::Language, source: Seq<char>) -> Option<TreeView>;

/// Parses `source` with `tree_sitter::Parser::parse`, by a parser that was
/// just made and given the grammar by `Parser::set_language`.
///
/// What the tree holds depends on the grammar and the text alone: the parser
/// has no earlier tree, time limit or cancellation flag. Of the tree nothing
/// is said but its name.
#[verifier::external_body]
fn build_tree(language: &tree_sitter::Language, source: &str) -> (r: Option<tree_sitter::Tree>)
    ensures
        parsed(*language, source@) == (match r {
            Some(t) => Some(nodes_of(t)),
            None => None,
        }),
{
    let mut parser = tree_sitter::Parser::new();
    parser.set_language(language).ok()?;
    parser.parse(source, None)
}

/// Reads the nodes off a tree by `tree_sitter::TreeCursor::goto_descendant`,
/// which numbers the root and its descendants in the order in which they
/// begin, a parent before its children. Of the nodes nothing is said but their
/// name.
#[verifier::external_body]
fn read_nodes(tree: &tree_sitter::Tree) -> (r: SyntaxTree)
    ensures
        r@ == nodes_of(*tree),
{
    let mut cursor = tree.walk();
    let mut nodes = Vec::new();
    for i in 0..tree.root_node().descendant_count() {
        cursor.goto_descendant(i);
        let n = cursor.node();
        let (s, e) = (n.start_position(), n.end_position());
        nodes.push(Node {
            kind: n.kind().into(), named: n.is_named(), field: cursor.field_name().map(String::from),
            depth: cursor.depth() as usize, start_byte: n.start_byte(), end_byte: n.end_byte(),
            start: Point { row: s.row, column: s.column }, end: Point { row: e.row, column: e.column },
        });
    }
    SyntaxTree { nodes, has_error: tree.root_node().has_error() }
}

/// Parses `source`: none where the grammar was made for another version of the
/// parser.
pub(crate) fn parse(language: &tree_sitter::Language, source: &str) -> (r: Option<SyntaxTree>)
    ensures
        match r {
            Some(t) => parsed(*language, source@) == Some(t@),
            None => parsed(*language, source@) is None,
        },
{
    match build_tree(language, source) {
        Some(t) => Some(read_nodes(&t)),
        None => None,
    }
}

} // verus!
