//! Sources through a real tree-sitter grammar. Go's shares the brackets, the
//! blocks and the function literals with Tengo's.

use tengo_lsp::document::FileState;
use tengo_lsp::exports::export_member_is_shorthand;
use tengo_lsp::exports::find_export_member_range;
use tengo_lsp::exports::parse_exports;
use tengo_lsp::lsp::Position;
use tengo_lsp::lsp::Range;
use tengo_lsp::places::node_to_lsp_range;
use tengo_lsp::places::to_point;
use tengo_lsp::syntax::Point;

fn go() -> tree_sitter::Language {
    tree_sitter_go::LANGUAGE.into()
}

const MESSY: &str = "package main\n\n\nfunc f() {\ng(\n1,\n  2,\n)\n}\n";
const TIDY: &str = "package main\n\nfunc f() {\n\tg(\n\t\t1,\n\t\t2,\n\t)\n}\n";

#[test]
fn a_parsed_text_is_formatted() {
    assert_eq!(tengo_lsp::format::format(MESSY, &go()), TIDY);
    assert_eq!(tengo_lsp::format::format(TIDY, &go()), TIDY);
}

#[test]
fn a_text_with_an_error_is_not_formatted() {
    let broken = "package main\nfunc f( {\n  x\n";
    assert_eq!(tengo_lsp::format::format(broken, &go()), broken);
}

#[test]
fn a_parsed_tree_is_the_one_of_the_parser() {
    let src = "package main\n\nvar f = func(a int) int { return a }\n";
    let state = FileState::parse("file:///a.go".to_string(), src.to_string(), &go()).unwrap();
    assert!(!state.tree.has_error);
    assert_eq!(state.tree.nodes[0].kind, "source_file");
    assert_eq!(state.tree.nodes[0].depth, 0);
    // A parent lies right before its first child and is less deep.
    let literal = state.tree.nodes.iter().position(|n| n.kind == "func_literal").unwrap();
    assert_eq!(state.tree.nodes[literal + 1].depth, state.tree.nodes[literal].depth + 1);
    let block = state.tree.nodes.iter().position(|n| n.kind == "block").unwrap();
    assert_eq!(state.tree.nodes[block].field.as_deref(), Some("body"));
    assert_eq!(state.tree.parent(block), Some(literal));
    assert_eq!(state.tree.child_by_field_name(literal, "body"), Some(block));
    // The file, the function and its block are scopes.
    assert_eq!(state.scopes.len(), 3);
    assert_eq!(state.scopes[2].parent, Some(1));
    let start = src.find('{').unwrap();
    assert_eq!(state.scopes[2].start_byte, start);
    assert_eq!(state.tree.nodes[block].start, Point { row: 2, column: start - 14 });
    assert_eq!(
        node_to_lsp_range(src, &state.tree.nodes[block]),
        Range::new(Position::new(2, start as u32 - 14), Position::new(2, src.len() as u32 - 15))
    );
    // The name that the literal uses.
    assert!(state.refs.iter().any(|r| r.name == "a" && r.byte_range.start > start));
}

#[test]
fn nodes_are_found_where_they_stand() {
    let src = "package main\n\nvar x = y.z\n";
    let state = FileState::parse("file:///a.go".to_string(), src.to_string(), &go()).unwrap();
    let tree = &state.tree;
    let at = tree.node_at(Point { row: 2, column: 8 }).unwrap();
    assert_eq!(tree.nodes[at].kind, "identifier");
    assert_eq!(tree.text(src, at), Some("y"));
    let at = tree.node_at(Point { row: 2, column: 10 }).unwrap();
    assert_eq!(tree.text(src, at), Some("z"));
    assert_eq!(tree.prev_sibling(at).map(|d| tree.nodes[d].kind.clone()).as_deref(), Some("."));
}

#[test]
fn a_new_text_is_parsed_again() {
    let mut state =
        FileState::parse("file:///a.go".to_string(), "package a\n".to_string(), &go()).unwrap();
    assert_eq!(state.scopes.len(), 1);
    state.reparse("package a\nfunc f() {}\n".to_string(), &go());
    assert_eq!(state.source, "package a\nfunc f() {}\n");
    assert_eq!(state.uri, "file:///a.go");
    assert_eq!(state.scopes.len(), 2);
}

#[test]
fn a_text_without_an_export_exports_nothing() {
    assert!(parse_exports(MESSY, &go()).is_empty());
    assert!(find_export_member_range(MESSY, "f", &go()).is_none());
    assert!(!export_member_is_shorthand(MESSY, "f", &go()));
}

const SAMPLE: &str = "package main\n\nimport \"fmt\"\n\n// Says hello.\nfunc hello(name string, rest ...int) (int, error) {\n\tfor i, x := range rest {\n\t\tfmt.Println(name, i+x, map[string]int{\"a\": 1})\n\t}\n\tf := func() { return }\n\tf()\n\treturn a.b.\n\t\tc(1), nil\n}\n\ntype T struct {\n\tx, y int\n}\n";

/// The nodes of the parser's own tree, in the order in which they begin.
fn preorder<'a>(n: tree_sitter::Node<'a>, out: &mut Vec<tree_sitter::Node<'a>>) {
    out.push(n);
    for i in 0..n.child_count() {
        preorder(n.child(i).unwrap(), out);
    }
}

#[test]
fn the_tree_answers_as_the_parser_does() {
    let mut parser = tree_sitter::Parser::new();
    parser.set_language(&go()).unwrap();
    let real = parser.parse(SAMPLE, None).unwrap();
    let mut nodes = Vec::new();
    preorder(real.root_node(), &mut nodes);
    let state = FileState::parse("file:///a.go".to_string(), SAMPLE.to_string(), &go()).unwrap();
    let tree = &state.tree;
    assert_eq!(tree.nodes.len(), nodes.len());
    let place = |n: tree_sitter::Node| nodes.iter().position(|m| m.id() == n.id());
    for (i, n) in nodes.iter().enumerate() {
        assert_eq!(tree.nodes[i].kind, n.kind());
        assert_eq!(tree.nodes[i].named, n.is_named());
        assert_eq!((tree.nodes[i].start_byte, tree.nodes[i].end_byte), (n.start_byte(), n.end_byte()));
        assert_eq!(tree.parent(i), n.parent().and_then(place));
        assert_eq!(tree.prev_sibling(i), n.prev_sibling().and_then(place));
        assert_eq!(tree.named_child(i), n.named_child(0).and_then(place));
        let kids: Vec<usize> = (0..n.child_count()).map(|k| place(n.child(k).unwrap()).unwrap()).collect();
        assert_eq!(tree.children(i), kids);
        for field in ["name", "body", "function", "field", "operand", "left", "right", "value", "key"] {
            assert_eq!(
                tree.child_by_field_name(i, field),
                n.child_by_field_name(field).and_then(place),
                "{field} of {}",
                n.kind()
            );
        }
    }
    for (row, line) in SAMPLE.lines().enumerate() {
        for column in 0..line.len() + 2 {
            let at = tree_sitter::Point { row, column };
            assert_eq!(
                tree.node_at(Point { row, column }),
                real.root_node().descendant_for_point_range(at, at).and_then(place),
                "{row}:{column}"
            );
        }
    }
}

#[test]
fn ranges_and_cursors_count_utf16_units() {
    let src = "package a\n\nvar s, x = \"é🦀\", y.zé\n";
    let state = FileState::parse("file:///a.go".to_string(), src.to_string(), &go()).unwrap();
    let y = state.tree.nodes.iter().position(|n| n.kind == "identifier" && n.start_byte == 32).unwrap();
    assert_eq!(state.tree.text(src, y), Some("y"));
    // Bytes count more than units: the accent takes two, the crab four.
    assert_eq!(state.tree.nodes[y].start, Point { row: 2, column: 21 });
    assert_eq!(
        node_to_lsp_range(src, &state.tree.nodes[y]),
        Range::new(Position::new(2, 18), Position::new(2, 19))
    );
    for n in &state.tree.nodes {
        assert_eq!(to_point(src, node_to_lsp_range(src, n).start), n.start);
    }
    // Behind the end of a line, and behind the end of the text.
    assert_eq!(to_point(src, Position::new(0, 99)), Point { row: 0, column: 9 });
    assert_eq!(to_point(src, Position::new(99, 0)), Point { row: 3, column: 0 });
    // Within the two units of the crab.
    assert_eq!(to_point(src, Position::new(2, 14)), Point { row: 2, column: 14 });
}
