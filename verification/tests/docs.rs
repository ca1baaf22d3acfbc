//! Doc comments and hover texts.

use tengo_lsp::exports::ExportMember;
use tengo_lsp::exports::ItemKind;
use tengo_lsp::hover::format_doc;
use tengo_lsp::hover::format_param;
use tengo_lsp::hover::format_return;
use tengo_lsp::hover::render_hover;
use tengo_lsp::lsp::Position;
use tengo_lsp::lsp::Range;

fn rng() -> Range {
    Range::new(Position::new(0, 0), Position::new(0, 0))
}

#[test]
fn renders_function_with_doc() {
    let m = ExportMember {
        name: "createFileDataset".into(),
        key_range: rng(),
        kind: ItemKind::Function,
        signature: Some("(a, b)".into()),
        doc: Some("Builds a dataset.".into()),
    };
    let s = render_hover(&m);
    assert!(s.contains("```tengo\ncreateFileDataset(a, b)\n```"));
    assert!(s.ends_with("Builds a dataset."));
}

#[test]
fn formats_param_and_return_tags() {
    let doc = "Builder function for creating a RunCommand resource.\n\n@param workdir: smart.reference - the working directory for the command.\n@return builder - the builder object with methods.";
    let s = format_doc(doc);
    assert!(s.contains("Builder function for creating a RunCommand resource."));
    assert!(s.contains("**Parameters**"));
    assert!(s.contains("`workdir` *(smart.reference)* — the working directory for the command."));
    assert!(s.contains("**Returns**"));
    assert!(s.contains("`builder` — the builder object with methods."));
}

#[test]
fn attaches_continuation_lines_to_their_tag() {
    let doc = "Creates ephemeral render template resource.\n@param tpl: template resource\n@param opts: (optional) a map of options:\n  - metaInputs: a map of meta inputs. No effect on ephemeral templates.\n@return renderer: a smart resource";
    let s = format_doc(doc);
    let lead = s.split("**Parameters**").next().unwrap();
    assert!(!lead.contains("metaInputs"));
    assert!(s.contains("`opts` — (optional) a map of options:  \n  - metaInputs: a map of meta inputs. No effect on ephemeral templates."));
    assert!(s.contains("`tpl` — template resource"));
    assert!(s.contains("`renderer` — a smart resource"));
}

#[test]
fn wraps_plain_continuation_inline() {
    let doc = "@param x: a value\n   that wraps across lines";
    let s = format_doc(doc);
    assert!(s.contains("`x` — a value that wraps across lines"));
}

#[test]
fn formats_param_without_type() {
    assert_eq!(format_param("count - number of items"), "`count` — number of items");
}

#[test]
fn formats_jsdoc_brace_type_param() {
    assert_eq!(
        format_param("{string} name the user name"),
        "`name` *(string)* — the user name"
    );
}

#[test]
fn plain_doc_is_unchanged() {
    assert_eq!(format_doc("Builds a dataset."), "Builds a dataset.");
}

#[test]
fn renders_variable_without_doc() {
    let m = ExportMember {
        name: "isGrouped".into(),
        key_range: rng(),
        kind: ItemKind::Variable,
        signature: None,
        doc: None,
    };
    let s = render_hover(&m);
    assert_eq!(s, "```tengo\nisGrouped\n```");
}

#[test]
fn sections_come_in_order() {
    let doc = "@deprecated use other\n@returns {int} n: the count\nand more\n@arg a\n\n@param b: c\nLead that comes late";
    assert_eq!(
        format_doc(doc),
        "**Parameters**\n\n`a`  \n`b` — c Lead that comes late\n\n**Returns**\n\n*(int)* `n` — the count and more\n\n**deprecated** use other"
    );
    assert_eq!(format_doc(""), "");
    assert_eq!(format_doc("a\r\nb\n\nc"), "a\nb\n\nc");
}

#[test]
fn formats_the_shapes_of_parameters() {
    assert_eq!(format_param("name: type - desc"), "`name` *(type)* — desc");
    assert_eq!(format_param("name: desc"), "`name` — desc");
    assert_eq!(format_param("name desc of it"), "`name` — desc of it");
    assert_eq!(format_param("name"), "`name`");
    assert_eq!(format_param("{} name"), "`name`");
    assert_eq!(format_param("{open name"), "`{open` — name");
}

#[test]
fn formats_the_shapes_of_returns() {
    assert_eq!(format_return("name - desc"), "`name` — desc");
    assert_eq!(format_return("name: desc"), "`name` — desc");
    assert_eq!(format_return("two words: desc"), "two words: desc");
    assert_eq!(format_return("{map} the map"), "*(map)* the map");
    assert_eq!(format_return(""), "");
}

#[test]
fn a_tag_is_a_whole_word() {
    assert_eq!(format_doc("@parameter x"), "**parameter** x");
    assert_eq!(format_doc("@argument x"), "**Parameters**\n\n`x`");
    assert_eq!(format_doc("@since"), "**since**");
}

#[test]
fn the_description_ends_at_the_first_tag() {
    let lead = "What it does.\n\nAnd more.\n";
    let tags = "@param a: b\n  goes on\nstill\n@since 2";
    assert_eq!(
        format_doc(&format!("{}\n{}", lead, tags)),
        format!("{}\n\n{}", format_doc(lead), format_doc(tags))
    );
    assert_eq!(format_doc(&format!("  \n{}", tags)), format_doc(tags));
}
