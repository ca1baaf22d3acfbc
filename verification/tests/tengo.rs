//! Tengo sources through the whole library. The syntax trees come from a small
//! parser below, in the shape that the Tengo grammar gives them.

use tengo_lsp::backend::formatting;
use tengo_lsp::completion::alias_before_dot;
use tengo_lsp::completion::completion;
use tengo_lsp::completion::completion_target;
use tengo_lsp::definition::definition_goal;
use tengo_lsp::definition::goto_definition;
use tengo_lsp::definition::Goal;
use tengo_lsp::definition::Target;
use tengo_lsp::document::FileState;
use tengo_lsp::exports::export_member_range_with_tree;
use tengo_lsp::exports::export_key_ranges_with_tree;
use tengo_lsp::exports::exports_itself_with_tree;
use tengo_lsp::exports::exports_with_tree;
use tengo_lsp::exports::shorthand_with_tree;
use tengo_lsp::exports::ExportMember;
use tengo_lsp::exports::ItemKind;
use tengo_lsp::format::format_with_tree;
use tengo_lsp::hover::hover;
use tengo_lsp::hover::hover_target;
use tengo_lsp::lsp::Location;
use tengo_lsp::lsp::Position;
use tengo_lsp::lsp::Range;
use tengo_lsp::outline::document_symbols;
use tengo_lsp::outline::DocumentSymbol;
use tengo_lsp::outline::LspKind;
use tengo_lsp::references::cross_file_references;
use tengo_lsp::references::dedup;
use tengo_lsp::references::find_references;
use tengo_lsp::references::scope_ranges;
use tengo_lsp::references::subject_at;
use tengo_lsp::references::Owner;
use tengo_lsp::references::ScannedFile;
use tengo_lsp::references::Workspace;
use tengo_lsp::rename::prepare_rename;
use tengo_lsp::rename::rename;
use tengo_lsp::rename::RenameError;
use tengo_lsp::rename::WorkspaceEdit;
use tengo_lsp::resolver::resolve_import;
use tengo_lsp::resolver::uri_to_path;
use tengo_lsp::resolver::Place;
use tengo_lsp::symbols::SymbolKind;
use tengo_lsp::syntax::Node;
use tengo_lsp::syntax::Point;
use tengo_lsp::syntax::SyntaxTree;
use tengo_lsp::workspace::live_source;
use tengo_lsp::workspace::Scan;
use tengo_lsp::workspace::Step;

// ---------------------------------------------------------------------------
// A parser for the parts of Tengo that the tests use.

struct Token {
    kind: String,
    named: bool,
    start: usize,
    end: usize,
    /// Whether a line ends between the token before and this one.
    new_line: bool,
}

struct Item {
    kind: String,
    named: bool,
    field: Option<String>,
    start: usize,
    end: usize,
    kids: Vec<Item>,
}

const KEYWORDS: [&str; 9] =
    ["func", "import", "export", "return", "if", "else", "for", "in", "break"];

const SYMBOLS: [&str; 32] = [
    "...", ":=", "==", "!=", "<=", ">=", "&&", "||", "+=", "-=", "++", "--", "=", "+", "-", "*", "/",
    "%", "<", ">", "!", "(", ")", "[", "]", "{", "}", ",", ":", ";", ".", "?",
];

fn tokens(src: &str) -> (Vec<Token>, bool) {
    let b = src.as_bytes();
    let mut out = Vec::new();
    let mut i = 0;
    let mut new_line = true;
    let mut broken = false;
    while i < b.len() {
        if b[i] == b'\n' {
            new_line = true;
            i += 1;
            continue;
        }
        if b[i].is_ascii_whitespace() {
            i += 1;
            continue;
        }
        let start = i;
        let mut named = true;
        let kind = if src[i..].starts_with("//") {
            while i < b.len() && b[i] != b'\n' {
                i += 1;
            }
            "comment".to_string()
        } else if src[i..].starts_with("/*") {
            i += src[i..].find("*/").map(|n| n + 2).unwrap_or(b.len() - i);
            "comment".to_string()
        } else if b[i] == b'"' {
            i += 1;
            while i < b.len() && b[i] != b'"' {
                i += 1;
            }
            i += 1;
            "string_literal".to_string()
        } else if b[i].is_ascii_digit() {
            while i < b.len() && b[i].is_ascii_digit() {
                i += 1;
            }
            "int_literal".to_string()
        } else if b[i] == b'_' || b[i].is_ascii_alphabetic() {
            while i < b.len() && (b[i] == b'_' || b[i].is_ascii_alphanumeric()) {
                i += 1;
            }
            let word = &src[start..i];
            if KEYWORDS.contains(&word) {
                named = false;
                word.to_string()
            } else {
                "identifier".to_string()
            }
        } else {
            named = false;
            match SYMBOLS.iter().find(|s| src[i..].starts_with(**s)) {
                Some(s) => {
                    i += s.len();
                    s.to_string()
                }
                None => {
                    broken = true;
                    i = b.len();
                    "ERROR".to_string()
                }
            }
        };
        let end = i.min(b.len());
        out.push(Token { kind, named, start, end, new_line });
        new_line = false;
    }
    (out, broken)
}

struct Grammar {
    toks: Vec<Token>,
    at: usize,
    broken: bool,
}

fn item(kind: &str, kids: Vec<Item>) -> Item {
    let start = kids.first().map(|k| k.start).unwrap_or(0);
    let end = kids.last().map(|k| k.end).unwrap_or(0);
    Item { kind: kind.to_string(), named: true, field: None, start, end, kids }
}

fn in_field(mut n: Item, field: &str) -> Item {
    n.field = Some(field.to_string());
    n
}

impl Grammar {
    fn look(&self, ahead: usize) -> &str {
        let rest: Vec<&Token> = self.toks[self.at..].iter().filter(|t| t.kind != "comment").collect();
        rest.get(ahead).map(|t| t.kind.as_str()).unwrap_or("")
    }

    fn peek(&self) -> &str {
        self.look(0)
    }

    /// Whether the next token begins a line.
    fn at_line(&self) -> bool {
        let mut i = self.at;
        let mut seen = false;
        while i < self.toks.len() {
            seen = seen || self.toks[i].new_line;
            if self.toks[i].kind != "comment" {
                return seen;
            }
            i += 1;
        }
        true
    }

    fn comments(&mut self, kids: &mut Vec<Item>) {
        while self.at < self.toks.len() && self.toks[self.at].kind == "comment" {
            kids.push(self.leaf());
        }
    }

    fn leaf(&mut self) -> Item {
        let t = &self.toks[self.at];
        let n = Item {
            kind: t.kind.clone(),
            named: t.named,
            field: None,
            start: t.start,
            end: t.end,
            kids: Vec::new(),
        };
        self.at += 1;
        n
    }

    fn take(&mut self, kids: &mut Vec<Item>) {
        self.comments(kids);
        if self.at < self.toks.len() {
            let n = self.leaf();
            kids.push(n);
        } else {
            self.broken = true;
        }
    }

    fn expect(&mut self, kind: &str, kids: &mut Vec<Item>) {
        if self.peek() == kind {
            self.take(kids);
        } else {
            self.broken = true;
            self.at = self.toks.len();
        }
    }

    fn statements(&mut self, close: &str, kids: &mut Vec<Item>) {
        loop {
            self.comments(kids);
            if self.at >= self.toks.len() || self.peek() == close {
                return;
            }
            if self.peek() == ";" {
                self.take(kids);
                continue;
            }
            let s = self.statement();
            kids.push(s);
        }
    }

    fn block(&mut self) -> Item {
        let mut kids = Vec::new();
        self.expect("{", &mut kids);
        self.statements("}", &mut kids);
        self.expect("}", &mut kids);
        item("block", kids)
    }

    fn statement(&mut self) -> Item {
        let mut kids = Vec::new();
        match self.peek() {
            "return" => {
                self.take(&mut kids);
                if !self.at_line() && self.peek() != "}" {
                    kids.push(self.expression());
                }
                item("return_statement", kids)
            }
            "export" => {
                self.take(&mut kids);
                kids.push(self.expression());
                item("export_statement", kids)
            }
            "if" => {
                self.take(&mut kids);
                kids.push(self.expression());
                kids.push(self.block());
                if self.peek() == "else" {
                    self.take(&mut kids);
                    let last = if self.peek() == "if" { self.statement() } else { self.block() };
                    kids.push(last);
                }
                item("if_statement", kids)
            }
            "for" => {
                self.take(&mut kids);
                if self.look(1) == "in" || (self.look(1) == "," && self.look(3) == "in") {
                    let mut head = Vec::new();
                    let key = self.primary();
                    head.push(in_field(key, "key"));
                    if self.peek() == "," {
                        self.take(&mut head);
                        let value = self.primary();
                        head.push(in_field(value, "value"));
                    }
                    self.expect("in", &mut head);
                    head.push(self.expression());
                    kids.push(item("for_in_clause", head));
                } else if self.peek() != "{" {
                    kids.push(self.statement());
                    while self.peek() == ";" {
                        self.take(&mut kids);
                        kids.push(self.statement());
                    }
                }
                kids.push(self.block());
                item("for_statement", kids)
            }
            _ => {
                let left = self.expression();
                if self.at_line() {
                    return item("expression_statement", vec![left]);
                }
                match self.peek() {
                    ":=" | "=" | "+=" | "-=" => {
                        kids.push(in_field(left, "left"));
                        let mut op = Vec::new();
                        self.take(&mut op);
                        kids.push(in_field(op.remove(0), "operator"));
                        let right = self.expression();
                        kids.push(in_field(right, "right"));
                        item("assignment_statement", kids)
                    }
                    "++" | "--" => {
                        kids.push(left);
                        self.take(&mut kids);
                        item("inc_statement", kids)
                    }
                    _ => item("expression_statement", vec![left]),
                }
            }
        }
    }

    fn expression(&mut self) -> Item {
        let mut left = self.postfix();
        while !self.at_line()
            && ["+", "-", "*", "/", "%", "==", "!=", "<", ">", "<=", ">=", "&&", "||"]
                .contains(&self.peek())
        {
            let mut kids = vec![left];
            self.take(&mut kids);
            kids.push(self.postfix());
            left = item("binary_expression", kids);
        }
        left
    }

    fn postfix(&mut self) -> Item {
        let mut left = self.primary();
        loop {
            if self.peek() == "." {
                let mut kids = vec![in_field(left, "object")];
                self.take(&mut kids);
                let field = self.primary();
                kids.push(in_field(field, "field"));
                left = item("selector_expression", kids);
            } else if self.peek() == "(" && !self.at_line() {
                let mut list = Vec::new();
                self.list("(", ")", &mut list);
                let args = item("argument_list", list);
                left = item("call_expression", vec![in_field(left, "function"), args]);
            } else if self.peek() == "[" && !self.at_line() {
                let mut kids = vec![left];
                self.take(&mut kids);
                kids.push(self.expression());
                self.expect("]", &mut kids);
                left = item("index_expression", kids);
            } else {
                return left;
            }
        }
    }

    fn list(&mut self, open: &str, close: &str, kids: &mut Vec<Item>) {
        self.expect(open, kids);
        loop {
            self.comments(kids);
            if self.at >= self.toks.len() || self.peek() == close {
                break;
            }
            if self.peek() == "," {
                self.take(kids);
            } else {
                let e = self.expression();
                kids.push(e);
            }
        }
        self.expect(close, kids);
    }

    fn primary(&mut self) -> Item {
        let mut kids = Vec::new();
        match self.peek() {
            "identifier" | "string_literal" | "int_literal" => {
                self.take(&mut kids);
                kids.remove(kids.len() - 1)
            }
            "func" => {
                self.take(&mut kids);
                let mut ps = Vec::new();
                self.expect("(", &mut ps);
                while self.at < self.toks.len() && self.peek() != ")" {
                    if self.peek() == "..." {
                        let mut v = Vec::new();
                        self.take(&mut v);
                        self.expect("identifier", &mut v);
                        ps.push(item("variadic_parameter", v));
                    } else {
                        self.take(&mut ps);
                    }
                }
                self.expect(")", &mut ps);
                kids.push(item("parameter_list", ps));
                kids.push(self.block());
                item("func_literal", kids)
            }
            "import" => {
                self.take(&mut kids);
                self.expect("(", &mut kids);
                self.expect("string_literal", &mut kids);
                self.expect(")", &mut kids);
                item("import_expression", kids)
            }
            "[" => {
                self.list("[", "]", &mut kids);
                item("array_literal", kids)
            }
            "(" => {
                self.list("(", ")", &mut kids);
                item("parenthesized_expression", kids)
            }
            "-" | "!" => {
                self.take(&mut kids);
                kids.push(self.postfix());
                item("unary_expression", kids)
            }
            "{" => {
                self.take(&mut kids);
                loop {
                    self.comments(&mut kids);
                    if self.at >= self.toks.len() || self.peek() == "}" {
                        break;
                    }
                    if self.peek() == "," {
                        self.take(&mut kids);
                        continue;
                    }
                    let mut entry = Vec::new();
                    let key = self.primary();
                    entry.push(in_field(key, "key"));
                    self.expect(":", &mut entry);
                    let value = self.expression();
                    entry.push(in_field(value, "value"));
                    kids.push(item("map_entry", entry));
                }
                self.expect("}", &mut kids);
                item("map_literal", kids)
            }
            _ => {
                self.broken = true;
                self.at = self.toks.len();
                item("ERROR", kids)
            }
        }
    }
}

fn flatten(src: &str, n: &Item, depth: usize, out: &mut Vec<Node>) {
    out.push(Node {
        kind: n.kind.clone(),
        named: n.named,
        field: n.field.clone(),
        depth,
        start_byte: n.start,
        end_byte: n.end,
        start: point(src, n.start),
        end: point(src, n.end),
    });
    for k in &n.kids {
        flatten(src, k, depth + 1, out);
    }
}

fn point(src: &str, at: usize) -> Point {
    let before = &src[..at];
    let row = before.matches('\n').count();
    let column = at - before.rfind('\n').map(|i| i + 1).unwrap_or(0);
    Point { row, column }
}

fn tree_of(src: &str) -> SyntaxTree {
    let (toks, broken) = tokens(src);
    let mut g = Grammar { toks, at: 0, broken };
    let mut kids = Vec::new();
    g.statements("", &mut kids);
    let mut root = item("source_file", kids);
    root.end = src.len();
    let mut nodes = Vec::new();
    flatten(src, &root, 0, &mut nodes);
    SyntaxTree { nodes, has_error: g.broken }
}

fn parse(uri: &str, src: &str) -> FileState {
    FileState::from_tree(uri.to_string(), src.to_string(), tree_of(src))
}

fn fmt(src: &str) -> String {
    format_with_tree(src, &tree_of(src))
}

// ---------------------------------------------------------------------------
// Files in memory.

struct Disk {
    files: Vec<(String, String)>,
    /// The texts of the files that are open in an editor.
    buffers: Vec<(String, String)>,
}

impl Disk {
    fn new(files: &[(&str, &str)]) -> Disk {
        let files = files.iter().map(|(p, s)| (p.to_string(), s.to_string())).collect();
        Disk { files, buffers: Vec::new() }
    }

    /// Opens the file in an editor, with another text than the one on disk.
    fn edit(mut self, path: &str, text: &str) -> Disk {
        self.buffers.push((path.to_string(), text.to_string()));
        self
    }

    fn has(&self, place: &Place) -> bool {
        let path = path_of(place);
        let inside = format!("{}/", path);
        self.files.iter().any(|(p, _)| *p == path || p.starts_with(&inside))
    }

    fn read(&self, path: &str) -> Option<&str> {
        self.files.iter().find(|(p, _)| p == path).map(|(_, s)| s.as_str())
    }

    fn resolve(&self, module: &str, file: &str) -> Option<String> {
        resolve_import(module, file, &|p: &Place| self.has(p)).map(|p| path_of(&p))
    }

    fn open(&self, path: &str) -> FileState {
        let buffer = self.buffers.iter().find(|(p, _)| p == path).map(|(_, s)| s.clone());
        let source = live_source(buffer, &|| self.read(path).map(|s| s.to_string()));
        parse(&uri_of(path), &source.unwrap())
    }

    fn module(&self, module: &str, file: &str) -> Option<FileState> {
        self.resolve(module, file).map(|p| self.open(&p))
    }

    /// What a search for the name at `position` reads.
    fn gather(&self, state: &FileState, position: Position) -> Option<Workspace> {
        let file = uri_to_path(&state.uri)?;
        let target = match subject_at(state, position)?.owner {
            Owner::Local => return None,
            Owner::Own => file,
            Owner::Module(m) => self.resolve(&m, &file)?,
        };
        let module = self.read(&target).map(|_| self.open(&target));
        let mut scan = Scan::new();
        let mut files = Vec::new();
        for (path, _) in &self.files {
            let name = path.rsplit('/').next().unwrap();
            if scan.step(name, path) != Step::Visit {
                continue;
            }
            let state = self.open(path);
            let targets =
                state.imports.iter().map(|i| self.resolve(&i.module, path)).collect();
            files.push(ScannedFile { path: path.clone(), state, targets });
        }
        Some(Workspace { target, module, files })
    }
}

fn path_of(place: &Place) -> String {
    let mut out = place.dir.clone();
    for p in &place.parts {
        if !out.ends_with('/') {
            out.push('/');
        }
        out.push_str(p);
    }
    out
}

fn uri_of(path: &str) -> String {
    format!("file://{}", path)
}

/// The place of the nth occurrence of `needle`.
fn pos(src: &str, needle: &str, nth: usize) -> Position {
    let idx = src.match_indices(needle).nth(nth).unwrap().0;
    let p = point(src, idx);
    Position::new(p.row as u32, p.column as u32)
}

fn rename_in(state: &FileState, at: Position, name: &str) -> Result<WorkspaceEdit, RenameError> {
    let disk = Disk::new(&[]);
    let workspace = disk.gather(state, at);
    rename(state, at, name, workspace.as_ref())
}

// ---------------------------------------------------------------------------
// Formatting.

const CANONICAL: &str = "\
// top-level comment
m := {
\ta: 1,
\t// own-line comment inside map
\tb: [
\t\t1,
\t\t2,
\t],
\tc: func(x, y) {
\t\tif x {
\t\t\treturn y // trailing comment
\t\t}
\t\tfor i := 0; i < 10; i++ {
\t\t\tx += i
\t\t}
\t\t// comment before closing brace
\t\treturn x
\t},
}
result := compute(
\ta,
\tb,
)
";

#[test]
fn formats_canonical_unchanged() {
    assert_eq!(fmt(CANONICAL), CANONICAL);
}

#[test]
fn reindents_mangled_input() {
    let mangled: String =
        CANONICAL.lines().map(|l| format!("{}\n", l.trim_start())).collect();
    assert_ne!(mangled, CANONICAL, "fixture must actually be indented");
    assert_eq!(fmt(&mangled), CANONICAL);
}

#[test]
fn reindents_overindented_input() {
    let mangled: String = CANONICAL
        .lines()
        .map(|l| {
            if l.trim().is_empty() {
                "\n".to_string()
            } else {
                format!("\t\t\t  {}\n", l.trim_start())
            }
        })
        .collect();
    assert_eq!(fmt(&mangled), CANONICAL);
}

#[test]
fn idempotent() {
    let once = fmt(CANONICAL);
    assert_eq!(fmt(&once), once);
}

#[test]
fn strips_trailing_whitespace() {
    assert_eq!(fmt("x := 1   \n"), "x := 1\n");
}

#[test]
fn normalizes_trailing_newline() {
    assert_eq!(fmt("x := 1\n\n\n"), "x := 1\n");
    assert_eq!(fmt("x := 1"), "x := 1\n");
}

#[test]
fn leaves_broken_input_untouched() {
    let broken = "m := {\n  a: 1,\n";
    assert!(tree_of(broken).has_error);
    assert_eq!(fmt(broken), broken);
}

#[test]
fn empty_input() {
    assert_eq!(fmt(""), "");
}

#[test]
fn formats_chain_with_multiline_args() {
    let mangled = "x := foo()\n.bar(\na,\nb,\n)\n.baz()\n";
    let want = "x := foo()\n\t.bar(\n\t\ta,\n\t\tb,\n\t)\n\t.baz()\n";
    assert_eq!(fmt(mangled), want);
    assert_eq!(fmt(want), want, "must be idempotent");
}

#[test]
fn formats_trailing_dot_builder_chain() {
    let mangled = "wd := workdir.builder().\ninQueue(q).\ncpu(c).\nbuild()\n";
    let want = "wd := workdir.builder().\n\tinQueue(q).\n\tcpu(c).\n\tbuild()\n";
    assert_eq!(fmt(mangled), want);
    assert_eq!(fmt(want), want, "must be idempotent");
}

#[test]
fn formats_trailing_dot_chain_inside_block() {
    let mangled = "f := func() {\nwd := b().\nwith(x).\nbuild()\n}\n";
    let want = "f := func() {\n\twd := b().\n\t\twith(x).\n\t\tbuild()\n}\n";
    assert_eq!(fmt(mangled), want);
    assert_eq!(fmt(want), want, "must be idempotent");
}

#[test]
fn formats_leading_dot_builder_chain() {
    let mangled = "x := foo()\n.bar()\n.baz()\n";
    let want = "x := foo()\n\t.bar()\n\t.baz()\n";
    assert_eq!(fmt(mangled), want);
}

#[test]
fn formats_builder_chain_inside_block() {
    let mangled = "f := func() {\nreturn b()\n.with(x)\n.build()\n}\n";
    let want = "f := func() {\n\treturn b()\n\t\t.with(x)\n\t\t.build()\n}\n";
    assert_eq!(fmt(mangled), want);
}

#[test]
fn reindents_misindented_imports() {
    let mangled = "\t\ta := import(\"x\")\n  b := import(\"y\")\n";
    let want = "a := import(\"x\")\nb := import(\"y\")\n";
    assert_eq!(fmt(mangled), want);
}

#[test]
fn several_imports_stay_flat() {
    let src = "a := import(\"x\")\nb := import(\"y\")\nc := import(\"z\")\n";
    assert_eq!(fmt(src), src);
}

#[test]
fn formats_export_section() {
    let mangled = "export {\nfoo: foo,\nbar: func(x) {\nreturn x\n},\nbaz: baz,\n}\n";
    let want = "export {\n\tfoo: foo,\n\tbar: func(x) {\n\t\treturn x\n\t},\n\tbaz: baz,\n}\n";
    assert_eq!(fmt(mangled), want);
}

#[test]
fn formats_multiline_call_args() {
    let mangled = "r := outer(\ninner(\na,\nb,\n),\nc,\n)\n";
    let want = "r := outer(\n\tinner(\n\t\ta,\n\t\tb,\n\t),\n\tc,\n)\n";
    assert_eq!(fmt(mangled), want);
}

#[test]
fn collapses_runs_of_blank_lines() {
    assert_eq!(fmt("\n\n\na := 1\n\n\n\nb := 2\n"), "a := 1\n\nb := 2\n");
    assert_eq!(fmt("a := 1\n\nb := 2\n"), "a := 1\n\nb := 2\n");
    let mangled = "m := {\na: 1,\n\n\n\nb: 2,\n}\n";
    let want = "m := {\n\ta: 1,\n\n\tb: 2,\n}\n";
    assert_eq!(fmt(mangled), want);
    assert_eq!(fmt(want), want, "must be idempotent");
}

#[test]
fn collapses_consecutive_opens_to_one_level() {
    let mangled = "self = call({\na: 1,\nb: func(x) {\nreturn x\n},\n})\n";
    let want = "self = call({\n\ta: 1,\n\tb: func(x) {\n\t\treturn x\n\t},\n})\n";
    assert_eq!(fmt(mangled), want);
    assert_eq!(fmt(want), want, "must be idempotent");
}

#[test]
fn collapses_triple_close() {
    let mangled = "x := h(use({\na: 1,\n}))\n";
    let want = "x := h(use({\n\ta: 1,\n}))\n";
    assert_eq!(fmt(mangled), want);
    assert_eq!(fmt(want), want, "must be idempotent");
}

#[test]
fn close_then_reopen_keeps_indent() {
    let mangled = "if x {\na\n} else {\nb\n}\n";
    let want = "if x {\n\ta\n} else {\n\tb\n}\n";
    assert_eq!(fmt(mangled), want);
    assert_eq!(fmt(want), want, "must be idempotent");
}

#[test]
fn preserves_crlf_line_endings() {
    let mangled = "m := {\r\na: 1,\r\n}\r\n";
    let want = "m := {\r\n\ta: 1,\r\n}\r\n";
    assert_eq!(fmt(mangled), want);
    assert_eq!(fmt(want), want);
}

#[test]
fn format_with_tree_reuses_parsed_tree() {
    let mangled = "m := {\na: 1,\n}\n";
    let tree = tree_of(mangled);
    assert_eq!(format_with_tree(mangled, &tree), "m := {\n\ta: 1,\n}\n");
}

#[test]
fn braces_in_strings_and_comments_dont_indent() {
    let src = "s := \"}\"\ny := 1\n// a } in a comment\nz := 2\n";
    assert_eq!(fmt(src), src);
}

/// The lines that are not blank, without the white space around them.
fn contents(s: &str) -> Vec<&str> {
    s.lines().map(|l| l.trim()).filter(|l| !l.is_empty()).collect()
}

#[test]
fn formatting_keeps_the_contents_of_lines() {
    let mangled = "\n  m := {\n      a: 1,   \n\n\n // c  d\n\t\t\tb: \"x  y\",\n}\t\n\n";
    let out = fmt(mangled);
    assert_eq!(contents(&out), contents(mangled));
    assert_eq!(out, "m := {\n\ta: 1,\n\n\t// c  d\n\tb: \"x  y\",\n}\n");
}

#[test]
fn indentation_does_not_matter() {
    let plain: String = CANONICAL.lines().map(|l| format!("{}\n", l.trim())).collect();
    let wild: String = CANONICAL.lines().map(|l| format!(" \t{}\t \n", l.trim())).collect();
    assert_eq!(fmt(&plain), fmt(&wild));
}

#[test]
fn closing_everything_ends_the_indentation() {
    let out = fmt("a(b(c({\nx: [\n1,\n],\n})))\nd := 1\n");
    assert_eq!(out, "a(b(c({\n\tx: [\n\t\t1,\n\t],\n})))\nd := 1\n");
}

#[test]
fn formatting_offers_an_edit_only_where_needed() {
    let clean = parse("file:///a.tengo", "x := 1\n");
    assert!(formatting(&clean).is_empty());
    let messy = parse("file:///a.tengo", "m := {\na: 1\n}");
    let edits = formatting(&messy);
    assert_eq!(edits.len(), 1);
    assert_eq!(edits[0].new_text, "m := {\n\ta: 1\n}\n");
    assert_eq!(edits[0].range, Range::new(Position::new(0, 0), Position::new(2, 1)));
}

// ---------------------------------------------------------------------------
// Exports.

const LIB: &str = r#"util := import(":util")

// Builds a file dataset from the given args.
// Second doc line.
createFileDataset := func(blockId, sampleIdAxis, dataset, ...rest) {
    return blockId
}

isGrouped := false

export {
    inlineFn: func(a, b) {
        return a
    },
    createFileDataset: createFileDataset,
    isGrouped: isGrouped,
    literalVar: 42
}
"#;

fn exports_of(src: &str) -> Vec<ExportMember> {
    exports_with_tree(src, &tree_of(src))
}

fn member<'a>(ms: &'a [ExportMember], name: &str) -> &'a ExportMember {
    ms.iter().find(|m| m.name == name).expect("member present")
}

#[test]
fn extracts_all_members_with_kinds() {
    let ms = exports_of(LIB);
    let names: Vec<&str> = ms.iter().map(|m| m.name.as_str()).collect();
    assert_eq!(names, vec!["inlineFn", "createFileDataset", "isGrouped", "literalVar"]);
    assert_eq!(member(&ms, "inlineFn").kind, ItemKind::Function);
    assert_eq!(member(&ms, "createFileDataset").kind, ItemKind::Function);
    assert_eq!(member(&ms, "isGrouped").kind, ItemKind::Variable);
    assert_eq!(member(&ms, "literalVar").kind, ItemKind::Variable);
}

#[test]
fn renders_signature_with_variadic() {
    let ms = exports_of(LIB);
    assert_eq!(
        member(&ms, "createFileDataset").signature.as_deref(),
        Some("(blockId, sampleIdAxis, dataset, ...rest)")
    );
    assert_eq!(member(&ms, "inlineFn").signature.as_deref(), Some("(a, b)"));
}

#[test]
fn extracts_doc_comment_for_referenced_func() {
    let ms = exports_of(LIB);
    assert_eq!(
        member(&ms, "createFileDataset").doc.as_deref(),
        Some("Builds a file dataset from the given args.\nSecond doc line.")
    );
}

#[test]
fn no_doc_is_none() {
    let ms = exports_of(LIB);
    assert_eq!(member(&ms, "inlineFn").doc, None);
    assert_eq!(member(&ms, "literalVar").doc, None);
}

const BLOCK_DOC_LIB: &str = r#"/**
 * Returns true if map contains specified key.
 * Note: O(N) fallback.
 */
containsKey := func(map, key) {
    return true
}

export {
    containsKey: containsKey
}
"#;

#[test]
fn extracts_jsdoc_block_comment() {
    let ms = exports_of(BLOCK_DOC_LIB);
    assert_eq!(
        member(&ms, "containsKey").doc.as_deref(),
        Some("Returns true if map contains specified key.\nNote: O(N) fallback.")
    );
}

const WRAPPED_EXPORT_LIB: &str = r#"ll := import(":ll")

/**
 * Builder for quota resource.
 */
quotaBuilder := func() {
    return undefined
}

export ll.toStrict({
    quotaBuilder: quotaBuilder
})
"#;

#[test]
fn resolves_member_and_doc_through_wrapped_export() {
    let ms = exports_of(WRAPPED_EXPORT_LIB);
    let m = member(&ms, "quotaBuilder");
    assert_eq!(m.kind, ItemKind::Function);
    assert_eq!(m.signature.as_deref(), Some("()"));
    assert_eq!(m.doc.as_deref(), Some("Builder for quota resource."));
}

#[test]
fn no_export_block_yields_empty() {
    assert!(exports_of("x := 1\n").is_empty());
}

#[test]
fn find_export_member_range_works() {
    let tree = tree_of(LIB);
    let r = export_member_range_with_tree(LIB, &tree, "createFileDataset").unwrap();
    assert!(export_member_range_with_tree(LIB, &tree, "nope").is_none());
    let want_line = LIB
        .lines()
        .position(|l| l.trim_start().starts_with("createFileDataset:"))
        .unwrap() as u32;
    assert_eq!(r.start.line, want_line);
}

#[test]
fn members_stand_where_their_keys_are_found() {
    let tree = tree_of(LIB);
    for m in exports_of(LIB) {
        assert_eq!(export_member_range_with_tree(LIB, &tree, &m.name), Some(m.key_range));
    }
}

#[test]
fn key_ranges_count_utf16_units() {
    let src = "export { /* é */ foo: 1 }\n";
    assert_eq!(
        export_member_range_with_tree(src, &tree_of(src), "foo"),
        Some(Range::new(Position::new(0, 17), Position::new(0, 20)))
    );
}

#[test]
fn cursors_count_utf16_units() {
    let src = "e := 1\nx := \"é🦀\" + y\ny := 2\n";
    let state = parse("file:///a.tengo", src);
    let at = Position::new(1, 13);
    assert_eq!(subject_at(&state, at).unwrap().name, "y");
    assert_eq!(prepare_rename(&state, at), Some(Range::new(at, Position::new(1, 14))));
}

#[test]
fn quoted_keys_lose_their_quotes() {
    let ms = exports_of("export {\n    \"a b\": 1\n}\n");
    assert_eq!(ms[0].name, "a b");
}

#[test]
fn a_blank_line_parts_a_comment_from_what_follows() {
    let src = "// not a doc\n\nf := func() {\n    return 1\n}\nexport {\n    f: f\n}\n";
    assert_eq!(member(&exports_of(src), "f").doc, None);
    let src = "// far\n\n// near\nf := func() {\n    return 1\n}\nexport {\n    f: f\n}\n";
    assert_eq!(member(&exports_of(src), "f").doc.as_deref(), Some("near"));
}

#[test]
fn an_empty_block_comment_is_no_doc() {
    let src = |comment: &str| format!("{}\nf := func() {{\n}}\nexport {{\n    f: f\n}}\n", comment);
    assert_eq!(member(&exports_of(&src("/**/")), "f").doc, None);
    assert_eq!(member(&exports_of(&src("/** */")), "f").doc, None);
    assert_eq!(member(&exports_of(&src("/* a */")), "f").doc.as_deref(), Some("a"));
    assert_eq!(member(&exports_of(&src("/**\n *\n * a\n ** b\n\n */")), "f").doc.as_deref(), Some("a\nb"));
}

#[test]
fn shorthand_is_told_from_other_exports() {
    let src = "a := 1\nb := 2\nexport {\n    a: a,\n    b: a,\n    c: 3\n}\n";
    let tree = tree_of(src);
    assert!(shorthand_with_tree(src, &tree, "a"));
    assert!(exports_of(src).iter().any(|m| m.name == "a"));
    assert!(!shorthand_with_tree(src, &tree, "b"));
    assert!(!shorthand_with_tree(src, &tree, "c"));
    assert!(!shorthand_with_tree(src, &tree, "d"));
}

// ---------------------------------------------------------------------------
// Documents.

#[test]
fn scopes_are_numbered_behind_their_parents() {
    let src = "f := func(a) {\n    if a {\n        return a\n    }\n}\n";
    let state = parse("file:///a.tengo", src);
    for (i, s) in state.scopes.iter().enumerate() {
        assert_eq!(s.id, i);
        assert!(s.parent.map_or(true, |p| p < i));
        if let Some(p) = s.parent {
            let outer = &state.scopes[p];
            assert!(outer.start_byte <= s.start_byte && s.end_byte <= outer.end_byte);
        }
    }
    // The file, the function, its block, the block of the condition.
    let parents: Vec<Option<usize>> = state.scopes.iter().map(|s| s.parent).collect();
    assert_eq!(parents, vec![None, Some(0), Some(1), Some(2)]);
    let inner = src.find("return").unwrap();
    assert_eq!(state.scope_at(inner), Some(3));
    assert_eq!(state.scope_at(0), Some(0));
    assert_eq!(state.scope_at(src.len()), None);
}

#[test]
fn names_mean_the_innermost_definition() {
    let src = "x := 1\nf := func(x) {\n    return x\n}\ny := x\n";
    let state = parse("file:///a.tengo", src);
    let inner = src.find("return x").unwrap() + 7;
    let param = state.resolve_def("x", inner).unwrap();
    assert_eq!(param.kind, SymbolKind::Param);
    let outer = src.find("y := x").unwrap() + 5;
    let var = state.resolve_def("x", outer).unwrap();
    assert_eq!(var.kind, SymbolKind::Var);
    assert_eq!(var.byte_range, 0..1);
    assert!(state.resolve_def("nowhere", outer).is_none());
}

#[test]
fn definitions_have_their_kinds() {
    let src = "a := 1\nb := func(p, ...q) {\n}\nc := import(\"fmt\")\nfor k, v in a {\n    k = v\n}\na = 2\n";
    let state = parse("file:///a.tengo", src);
    let defs: Vec<(&str, SymbolKind)> =
        state.defs.iter().map(|d| (d.name.as_str(), d.kind)).collect();
    assert_eq!(
        defs,
        vec![
            ("a", SymbolKind::Var),
            ("b", SymbolKind::Func),
            ("p", SymbolKind::Param),
            ("q", SymbolKind::Param),
            ("c", SymbolKind::Import),
            ("k", SymbolKind::ForVar),
            ("v", SymbolKind::ForVar),
        ]
    );
    let refs: Vec<&str> = state.refs.iter().map(|r| r.name.as_str()).collect();
    assert_eq!(refs, vec!["a", "k", "v", "a"]);
    assert!(state.defs.iter().all(|d| d.scope_id < state.scopes.len()));
    // The variables of a loop belong to its block.
    let block = state.defs[5].scope_id;
    assert_eq!(state.scopes[block].start_byte, src.find("{\n    k").unwrap());
}

#[test]
fn the_last_import_of_a_name_counts() {
    let src = "u := import(\":a\")\nw := import(\":b\")\nu := import(\":c\")\n";
    let state = parse("file:///a.tengo", src);
    assert_eq!(state.imports.len(), 2);
    assert_eq!(state.import("u").unwrap().module, ":c");
    assert_eq!(state.import("w").unwrap().module, ":b");
    assert!(state.import("x").is_none());
}

#[test]
fn replacing_the_text_replaces_what_is_known() {
    let mut state = parse("file:///a.tengo", "x := 1\n");
    let src = "y := import(\":m\")\n";
    state.replace(src.to_string(), tree_of(src));
    assert_eq!(state.uri, "file:///a.tengo");
    assert_eq!(state.source, src);
    assert_eq!(state.defs.len(), 1);
    assert_eq!(state.defs[0].name, "y");
    assert!(state.import("y").is_some());
}

#[test]
fn parents_and_children_agree() {
    let tree = tree_of(CANONICAL);
    for p in 0..tree.nodes.len() {
        let kids = tree.children(p);
        for (k, c) in kids.iter().enumerate() {
            assert_eq!(tree.parent(*c), Some(p));
            assert_eq!(tree.prev_sibling(*c), if k == 0 { None } else { Some(kids[k - 1]) });
        }
    }
}

// ---------------------------------------------------------------------------
// Definitions.

const DS_H5AD: &str = r#"util := import(":util")

createDataset := func(blockId, sampleIdAxis, dataset, importFile) {
    return util.createFileDataset(blockId, sampleIdAxis, dataset, importFile, "h5ad")
}

export {
    isGrouped: false,
    createDataset: createDataset
}
"#;

const UTIL_LIB: &str = r#"createFileDataset := func(x) {
    return x
}

export {
    isGrouped: false,
    createFileDataset: createFileDataset
}
"#;

#[test]
fn import_alias_is_parsed() {
    let state = parse("file:///pkg/src/ds-h5ad.lib.tengo", DS_H5AD);
    let info = state.import("util").expect("`util` should be a known import alias");
    assert_eq!(info.module, ":util");
}

#[test]
fn goto_on_imported_member_is_recognized() {
    let state = parse("file:///pkg/src/ds-h5ad.lib.tengo", DS_H5AD);
    let line = DS_H5AD.lines().nth(3).unwrap();
    let col = line.find("createFileDataset").unwrap() as u32;
    let goal = definition_goal(&state, Position::new(3, col));
    assert!(
        matches!(goal, Some(Goal::Member(m, n)) if m == ":util" && n == "createFileDataset")
    );
    assert!(goto_definition(&state, Position::new(3, col), None).is_none());
}

#[test]
fn finds_export_member_key_range() {
    let range = export_member_range_with_tree(UTIL_LIB, &tree_of(UTIL_LIB), "createFileDataset")
        .expect("createFileDataset must be found in the export block");
    assert_eq!(range.start.line, 6);
    let key_col =
        UTIL_LIB.lines().nth(6).unwrap().find("createFileDataset").unwrap() as u32;
    assert_eq!(range.start.character, key_col);
}

#[test]
fn export_member_not_present_returns_none() {
    assert!(export_member_range_with_tree(UTIL_LIB, &tree_of(UTIL_LIB), "doesNotExist").is_none());
}

fn target_of(disk: &Disk, state: &FileState, at: Position) -> Option<Target> {
    let goal = definition_goal(state, at)?;
    let path = disk.resolve(goal.module()?, &uri_to_path(&state.uri)?)?;
    let module = disk.read(&path).map(|_| disk.open(&path));
    Some(Target { uri: uri_of(&path), module })
}

fn util_disk(main: &str) -> Disk {
    Disk::new(&[
        ("/pkg/package.json", "{}"),
        ("/pkg/src/util.lib.tengo", UTIL_LIB),
        ("/pkg/src/main.lib.tengo", main),
    ])
}

#[test]
fn missing_export_entry_does_not_crash_and_falls_back_to_file_top() {
    let main = "util := import(\":util\")\nx := util.missingMember\n";
    let disk = util_disk(main);
    let state = disk.open("/pkg/src/main.lib.tengo");
    let at = pos(main, "missingMember", 0);
    let target = target_of(&disk, &state, at);
    let loc = goto_definition(&state, at, target.as_ref()).expect("graceful fallback");
    assert_eq!(loc.uri, "file:///pkg/src/util.lib.tengo");
    assert_eq!(loc.range.start, Position::new(0, 0));
}

#[test]
fn definitions_are_found_across_files() {
    let main = "util := import(\":util\")\nx := util.createFileDataset\ny := x\nz := p.getTemplateId(\":util\")\nw := p.other(\":util\")\n";
    let disk = util_disk(main);
    let state = disk.open("/pkg/src/main.lib.tengo");
    let go = |at: Position| goto_definition(&state, at, target_of(&disk, &state, at).as_ref());
    let util = "file:///pkg/src/util.lib.tengo";
    // A member leads to its key, an alias and the string to the file's top.
    let l = go(pos(main, "createFileDataset", 0)).unwrap();
    assert_eq!((l.uri.as_str(), l.range.start), (util, Position::new(6, 4)));
    let l = go(pos(main, "util", 2)).unwrap();
    assert_eq!((l.uri.as_str(), l.range.start), (util, Position::new(0, 0)));
    let l = go(pos(main, "\":util\"", 0)).unwrap();
    assert_eq!((l.uri.as_str(), l.range.start), (util, Position::new(0, 0)));
    // The argument of an artifact method is like an import, no other is.
    let l = go(pos(main, "\":util\"", 1)).unwrap();
    assert_eq!(l.uri, util);
    assert!(go(pos(main, "\":util\"", 2)).is_none());
    // A local name leads to its definition.
    let l = go(pos(main, "x", 1)).unwrap();
    assert_eq!(l.uri, "file:///pkg/src/main.lib.tengo");
    assert_eq!(l.range, Range::new(Position::new(1, 0), Position::new(1, 1)));
}

#[test]
fn an_alias_without_a_file_leads_to_itself() {
    let src = "fmt := import(\"fmt\")\nx := fmt.println\n";
    let state = parse("file:///p/a.tengo", src);
    let l = goto_definition(&state, pos(src, "fmt", 2), None).unwrap();
    assert_eq!(l.range.start, Position::new(0, 0));
    assert!(goto_definition(&state, pos(src, "println", 0), None).is_none());
}

#[test]
fn addresses_come_out_in_their_normal_form() {
    let src = "x := 1\ny := x\n";
    let state = parse("file:///tmp/a b.tengo", src);
    let l = goto_definition(&state, pos(src, "x", 1), None).unwrap();
    assert_eq!(l.uri, "file:///tmp/a%20b.tengo");
    let state = parse("no address", src);
    assert!(goto_definition(&state, pos(src, "x", 1), None).is_none());
}

// ---------------------------------------------------------------------------
// Hover and completion.

#[test]
fn end_to_end_hover_resolves_member() {
    let lib = "// Adds two numbers.\nadd := func(a, b) {\n    return a + b\n}\n\nexport {\n    add: add\n}\n";
    let main = "util := import(\":util\")\nx := util.add\n";
    let disk = Disk::new(&[
        ("/pkg/package.json", "{}"),
        ("/pkg/src/util.lib.tengo", lib),
        ("/pkg/src/main.lib.tengo", main),
    ]);
    let state = disk.open("/pkg/src/main.lib.tengo");
    let at = pos(main, "add", 0);
    let (module, member) = hover_target(&state, at).unwrap();
    assert_eq!(member, "add");
    let module = disk.module(&module, "/pkg/src/main.lib.tengo");
    let text = hover(&state, at, module.as_ref()).expect("hover should resolve add");
    assert!(text.contains("add(a, b)"));
    assert!(text.contains("Adds two numbers."));
    assert_eq!(text, "```tengo\nadd(a, b)\n```\n\nAdds two numbers.");
}

#[test]
fn unresolvable_module_no_panic() {
    let src = "util := import(\":nonexistent\")\nx := util.add\n";
    let state = parse("file:///nowhere/main.lib.tengo", src);
    let at = pos(src, "add", 0);
    let module = Disk::new(&[]).module(":nonexistent", "/nowhere/main.lib.tengo");
    assert!(hover(&state, at, module.as_ref()).is_none());
}

#[test]
fn detects_alias_before_dot() {
    let src = "util := import(\":util\")\nx := util.\n";
    assert_eq!(alias_before_dot(src, Position::new(1, 10)).as_deref(), Some("util"));
}

#[test]
fn detects_alias_with_partial_member() {
    let src = "util := import(\":util\")\nx := util.create\n";
    assert_eq!(alias_before_dot(src, Position::new(1, 16)).as_deref(), Some("util"));
}

#[test]
fn no_dot_is_none() {
    let src = "util := import(\":util\")\nx := util\n";
    assert_eq!(alias_before_dot(src, Position::new(1, 9)), None);
}

#[test]
fn columns_count_utf16_units() {
    // The crab takes two units.
    let src = "x := \"🦀\" + util.\n";
    assert_eq!(alias_before_dot(src, Position::new(0, 17)).as_deref(), Some("util"));
    assert_eq!(alias_before_dot(src, Position::new(0, 16)), None);
    assert_eq!(alias_before_dot(src, Position::new(7, 0)), None);
    assert_eq!(alias_before_dot(".", Position::new(0, 1)), None);
}

#[test]
fn missing_module_returns_none_no_panic() {
    let src = "util := import(\":nonexistent\")\nx := util.\n";
    let state = parse("file:///nowhere/main.lib.tengo", src);
    let at = Position::new(1, 10);
    assert_eq!(completion_target(&state, at).as_deref(), Some(":nonexistent"));
    let module = Disk::new(&[]).module(":nonexistent", "/nowhere/main.lib.tengo");
    assert!(completion(&state, at, module.as_ref()).is_none());
}

#[test]
fn completion_offers_every_member() {
    let src = "util := import(\":util\")\nx := util.cr\n";
    let state = parse("file:///p/main.lib.tengo", src);
    let lib = parse("file:///p/util.lib.tengo", LIB);
    let items = completion(&state, Position::new(1, 12), Some(&lib)).unwrap();
    let labels: Vec<&str> = items.iter().map(|i| i.label.as_str()).collect();
    assert_eq!(labels, vec!["inlineFn", "createFileDataset", "isGrouped", "literalVar"]);
    assert_eq!(items[0].kind, ItemKind::Function);
    assert_eq!(items[0].detail.as_deref(), Some("inlineFn(a, b)"));
    assert_eq!(items[3].detail, None);
    assert_eq!(
        items[1].documentation.as_deref(),
        Some("Builds a file dataset from the given args.\nSecond doc line.")
    );
    let none = parse("file:///p/util.lib.tengo", "x := 1\n");
    assert!(completion(&state, Position::new(1, 12), Some(&none)).is_none());
    // Not an imported name.
    assert!(completion_target(&state, Position::new(0, 3)).is_none());
}

// ---------------------------------------------------------------------------
// Outline.

fn outline(src: &str) -> Option<Vec<DocumentSymbol>> {
    document_symbols(&parse("file:///t.tengo", src))
}

#[test]
fn lists_top_level_imports_funcs_vars() {
    let src = "fmt := import(\"fmt\")\nu := import(\":util\")\n\nname := \"x\"\n\nadd := func(a, b) { return a + b }\n";
    let syms = outline(src).expect("symbols");
    let names: Vec<&str> = syms.iter().map(|s| s.name.as_str()).collect();
    assert_eq!(names, vec!["fmt", "u", "name", "add"]);
    let kinds: Vec<LspKind> = syms.iter().map(|s| s.kind).collect();
    assert_eq!(
        kinds,
        vec![LspKind::Module, LspKind::Module, LspKind::Variable, LspKind::Function]
    );
    assert_eq!(syms[1].detail.as_deref(), Some("import \":util\""));
    assert_eq!(syms[3].detail.as_deref(), Some("(a, b)"));
}

#[test]
fn exports_appear_as_nested_group() {
    let src = "doThing := func(x) { return x }\nname := \"x\"\n\nexport {\n    doThing: doThing,\n    name: name\n}\n";
    let syms = outline(src).expect("symbols");
    let group = syms.iter().find(|s| s.name == "export").expect("export group");
    assert_eq!(group.kind, LspKind::Namespace);
    assert_eq!(group.detail.as_deref(), Some("2 members"));
    let children = group.children.as_ref().expect("children");
    let kid_names: Vec<&str> = children.iter().map(|c| c.name.as_str()).collect();
    assert_eq!(kid_names, vec!["doThing", "name"]);
    assert_eq!(children[0].kind, LspKind::Function);
    assert_eq!(children[1].kind, LspKind::Field);
}

#[test]
fn empty_file_returns_none() {
    assert!(outline("").is_none());
}

#[test]
fn function_locals_do_not_appear() {
    let src = "f := func() {\n    local := 1\n    return local\n}\n";
    let syms = outline(src).expect("symbols");
    let names: Vec<&str> = syms.iter().map(|s| s.name.as_str()).collect();
    assert_eq!(names, vec!["f"], "only top-level `f` should appear");
}

#[test]
fn builder_methods_become_children() {
    let src = "make := func() {\n    return {\n        env: func(name, value) {\n            return self\n        },\n        argExpr: func(arg) {\n            return self\n        }\n    }\n}\n";
    let syms = outline(src).expect("symbols");
    assert_eq!(syms.len(), 1);
    assert_eq!(syms[0].name, "make");
    let kids = syms[0].children.as_ref().expect("children");
    let kid_names: Vec<&str> = kids.iter().map(|c| c.name.as_str()).collect();
    assert_eq!(kid_names, vec!["env", "argExpr"]);
    assert_eq!(kids[0].kind, LspKind::Method);
    assert_eq!(kids[0].detail.as_deref(), Some("(name, value)"));
}

#[test]
fn methods_nest_in_methods() {
    let src = "m := {\n    a: func() {\n        return {\n            b: func(x) { return x }\n        }\n    },\n    c: 1\n}\nexport {\n    m: m\n}\n";
    let syms = outline(src).expect("symbols");
    let a = &syms[0].children.as_ref().unwrap()[0];
    assert_eq!(a.name, "a");
    assert_eq!(syms[0].children.as_ref().unwrap().len(), 1);
    let b = &a.children.as_ref().unwrap()[0];
    assert_eq!((b.name.as_str(), b.detail.as_deref()), ("b", Some("(x)")));
    assert!(b.children.is_none());
    assert_eq!(syms[1].detail.as_deref(), Some("1 member"));
}

// ---------------------------------------------------------------------------
// References.

fn build_pkg() -> Disk {
    Disk::new(&[
        ("/pkg/package.json", "{}"),
        (
            "/pkg/src/util.lib.tengo",
            "doThing := func(x) {\n    return x\n}\n\nwrap := func(y) {\n    return doThing(y)\n}\n\nexport {\n    doThing: doThing\n}\n",
        ),
        (
            "/pkg/src/a.lib.tengo",
            "util := import(\":util\")\n\nrun := func() {\n    return util.doThing(1)\n}\n",
        ),
        (
            "/pkg/src/b.lib.tengo",
            "u := import(\":util\")\n\nx := u.doThing(2)\ny := u.doThing(3)\n",
        ),
    ])
}

fn search(disk: &Disk, path: &str, at: Position, include_declaration: bool) -> Option<Vec<Location>> {
    let state = disk.open(path);
    let workspace = disk.gather(&state, at);
    find_references(&state, at, include_declaration, workspace.as_ref())
}

fn count(locs: &[Location], file: &str) -> usize {
    locs.iter().filter(|l| l.uri.ends_with(file)).count()
}

#[test]
fn selector_field_finds_cross_file_references() {
    let disk = build_pkg();
    let path = "/pkg/src/a.lib.tengo";
    let at = pos(disk.read(path).unwrap(), "doThing", 0);
    let locs = search(&disk, path, at, false).expect("should find cross-file references");
    let external = count(&locs, "/a.lib.tengo") + count(&locs, "/b.lib.tengo");
    assert!(external >= 3, "expected >=3 external refs, got {external} in {locs:?}");
    assert_eq!(external, 3);
    // The use in `wrap`, the export key and the exported value.
    assert_eq!(count(&locs, "/util.lib.tengo"), 3);
}

#[test]
fn exported_symbol_includes_internal_and_external() {
    let disk = build_pkg();
    let path = "/pkg/src/util.lib.tengo";
    let at = pos(disk.read(path).unwrap(), "doThing: doThing", 0);
    let locs = search(&disk, path, at, true).expect("should find references");
    let in_module = count(&locs, "/util.lib.tengo");
    let external = count(&locs, "/a.lib.tengo") + count(&locs, "/b.lib.tengo");
    assert!(in_module >= 1, "expected internal refs, got {in_module}");
    assert!(external >= 3, "expected external refs, got {external}");
    assert_eq!((in_module, external), (4, 3));
}

#[test]
fn private_local_symbol_stays_in_file() {
    let disk = build_pkg();
    let path = "/pkg/src/util.lib.tengo";
    let at = pos(disk.read(path).unwrap(), "wrap", 0);
    let locs = search(&disk, path, at, true).unwrap();
    assert!(
        locs.iter().all(|l| l.uri.ends_with("/util.lib.tengo")),
        "private symbol leaked outside its file: {locs:?}"
    );
    assert_eq!(locs.len(), 1);
}

#[test]
fn shadowing_local_does_not_trigger_cross_file() {
    let module = "doThing := func() {\n    return 1\n}\n\nhelper := func(doThing) {\n    return doThing()\n}\n\nexport {\n    doThing: doThing\n}\n";
    let disk = Disk::new(&[
        ("/pkg/package.json", "{}"),
        ("/pkg/src/util.lib.tengo", module),
        ("/pkg/src/c.lib.tengo", "u := import(\":util\")\nz := u.doThing()\n"),
    ]);
    let at = pos(module, "doThing()", 0);
    let locs = search(&disk, "/pkg/src/util.lib.tengo", at, true).unwrap();
    assert!(
        locs.iter().all(|l| l.uri.ends_with("/util.lib.tengo")),
        "shadowing param leaked to cross-file refs: {locs:?}"
    );
    // The parameter and its use.
    assert_eq!(locs.len(), 2);
}

#[test]
fn no_package_does_not_panic() {
    let src = "x := 1\ny := x + x\n";
    let state = parse("file:///tmp/standalone.tengo", src);
    let locs = find_references(&state, Position::new(0, 0), true, None).unwrap();
    assert_eq!(locs.len(), 3);
    assert!(find_references(&state, Position::new(0, 2), true, None).is_none());
}

#[test]
fn an_unresolved_module_is_searched_for_in_its_file_only() {
    let src = "u := import(\":gone\")\nx := u.run\ny := u.run\nrun := 1\nz := run\n";
    let state = parse("file:///p/a.tengo", src);
    let at = pos(src, "run", 0);
    assert!(matches!(subject_at(&state, at).unwrap().owner, Owner::Module(m) if m == ":gone"));
    assert!(find_references(&state, at, true, None).is_none());
}

#[test]
fn a_private_name_is_not_taken_for_an_export_of_its_name() {
    // `thing` is exported, but as something else than the private `thing`.
    let module = "thing := 1\nuse := thing\n\nexport {\n    thing: 42\n}\n";
    let user = "u := import(\":util\")\nz := u.thing\n";
    let disk = Disk::new(&[
        ("/pkg/package.json", "{}"),
        ("/pkg/src/util.lib.tengo", module),
        ("/pkg/src/c.lib.tengo", user),
    ]);
    // From the outside: the uses, and nothing in the module.
    let locs = search(&disk, "/pkg/src/c.lib.tengo", pos(user, "thing", 0), true).unwrap();
    assert_eq!((count(&locs, "/c.lib.tengo"), count(&locs, "/util.lib.tengo")), (1, 0));
    // From the private name: its own file only.
    let locs = search(&disk, "/pkg/src/util.lib.tengo", pos(module, "thing", 0), true).unwrap();
    assert_eq!(count(&locs, "/c.lib.tengo"), 0);
    assert_eq!(count(&locs, "/util.lib.tengo"), 2);
    // From the key: what others use.
    let locs = search(&disk, "/pkg/src/util.lib.tengo", pos(module, "thing: 42", 0), true).unwrap();
    assert_eq!((count(&locs, "/c.lib.tengo"), count(&locs, "/util.lib.tengo")), (1, 0));
}

#[test]
fn references_are_those_that_mean_the_definition() {
    let src = "x := 1\nf := func(x) {\n    return x\n}\ny := x\n";
    let state = parse("file:///s.tengo", src);
    let def = state.resolve_def("x", 0).unwrap();
    let uses = scope_ranges(&state, "x", def, false);
    assert_eq!(uses, vec![Range::new(Position::new(4, 5), Position::new(4, 6))]);
    let all = scope_ranges(&state, "x", def, true);
    assert_eq!(all.len(), 2);
    assert_eq!(all[0], Range::new(Position::new(0, 0), Position::new(0, 1)));
}

#[test]
fn dedup_keeps_the_first_of_each() {
    let at = |uri: &str, line: u32| Location {
        uri: uri.to_string(),
        range: Range::new(Position::new(line, 0), Position::new(line, 1)),
    };
    let out = dedup(vec![at("a", 1), at("b", 1), at("a", 1), at("a", 2), at("b", 1)]);
    assert_eq!(out, vec![at("a", 1), at("b", 1), at("a", 2)]);
}

#[test]
fn a_file_seen_under_two_aliases_is_reported_once_per_use() {
    let lib = "t := 1\nexport {\n    t: t\n}\n";
    let user = "a := import(\":util\")\nb := import(\":util\")\nx := a.t + b.t + c.t\n";
    let disk = Disk::new(&[
        ("/pkg/package.json", "{}"),
        ("/pkg/src/util.lib.tengo", lib),
        ("/pkg/src/c.lib.tengo", user),
    ]);
    let state = disk.open("/pkg/src/c.lib.tengo");
    let workspace = disk.gather(&state, pos(user, "t + b", 0)).unwrap();
    let locs = cross_file_references(&workspace, "t", false).unwrap();
    assert_eq!(count(&locs, "/c.lib.tengo"), 2);
}

// ---------------------------------------------------------------------------
// Rename.

#[test]
fn renames_local_symbol_and_uses() {
    let src = "count := 1\ntotal := count + count\n";
    let state = parse("file:///tmp/a.tengo", src);
    let edit = rename_in(&state, pos(src, "count", 0), "n").expect("rename ok");
    let edits = edit.edits("file:///tmp/a.tengo").unwrap();
    assert_eq!(edits.len(), 3);
    assert!(edits.iter().all(|e| e.new_text == "n"));
}

#[test]
fn shadowing_param_is_not_renamed() {
    let src = "x := 1\nf := func(x) {\n    return x\n}\ny := x\n";
    let state = parse("file:///tmp/s.tengo", src);
    let edit = rename_in(&state, pos(src, "x", 0), "z").expect("rename ok");
    let edits = edit.edits("file:///tmp/s.tengo").unwrap();
    assert_eq!(edits.len(), 2);
    assert!(edits.iter().all(|e| e.range.start.line != 2));
}

#[test]
fn rejects_invalid_new_name() {
    let src = "count := 1\n";
    let state = parse("file:///tmp/a.tengo", src);
    for bad in ["1count", "has-dash", "with space", "", "func"] {
        let r = rename_in(&state, pos(src, "count", 0), bad);
        assert!(
            matches!(r, Err(RenameError::InvalidName(_))),
            "expected InvalidName for {bad:?}"
        );
    }
    let r = rename_in(&state, pos(src, "count", 0), "a-b");
    assert!(
        matches!(r, Err(RenameError::InvalidName(m)) if m == "`a-b` is not a valid Tengo identifier")
    );
}

#[test]
fn prepare_rejects_non_identifier() {
    let src = "x := \"hello\"\n";
    let state = parse("file:///tmp/a.tengo", src);
    assert!(prepare_rename(&state, pos(src, "hello", 0)).is_none());
    assert!(prepare_rename(&state, pos(src, "x", 0)).is_some());
    // What cannot be prepared cannot be done.
    let r = rename_in(&state, pos(src, "hello", 0), "n");
    assert!(matches!(r, Err(RenameError::NotRenameable)));
}

#[test]
fn prepare_rejects_divergent_export_key() {
    let src = "localName := func() {\n    return 1\n}\n\nexport {\n    extName: localName\n}\n";
    let state = parse("file:///tmp/m.tengo", src);
    assert!(prepare_rename(&state, pos(src, "extName", 0)).is_none());
    assert!(prepare_rename(&state, pos(src, "localName", 0)).is_some());
}

const DO_THING: &str =
    "doThing := func() {\n    return 1\n}\n\nexport {\n    doThing: doThing\n}\n";

fn thing_pkg(consumer: &str) -> Disk {
    Disk::new(&[
        ("/pkg/package.json", "{}"),
        ("/pkg/src/util.lib.tengo", DO_THING),
        ("/pkg/src/a.lib.tengo", consumer),
    ])
}

fn rename_on(disk: &Disk, path: &str, at: Position, name: &str) -> WorkspaceEdit {
    let state = disk.open(path);
    let workspace = disk.gather(&state, at);
    rename(&state, at, name, workspace.as_ref()).expect("rename ok")
}

#[test]
fn renames_exported_member_across_files() {
    let disk = thing_pkg("util := import(\":util\")\nz := util.doThing()\n");
    let at = pos(DO_THING, "doThing", 0);
    let edit = rename_on(&disk, "/pkg/src/util.lib.tengo", at, "perform");
    let m_edits = edit.edits("file:///pkg/src/util.lib.tengo").unwrap();
    assert_eq!(m_edits.len(), 3, "expected decl+key+value: {m_edits:?}");
    assert_eq!(
        m_edits.iter().filter(|e| e.range.start.line == 5).count(),
        2,
        "export key+value not both renamed: {m_edits:?}"
    );
    let a_edits = edit.edits("file:///pkg/src/a.lib.tengo").expect("consumer not edited");
    assert_eq!(a_edits.len(), 1);
    assert_eq!(a_edits[0].new_text, "perform");
    assert_eq!(edit.changes.len(), 2);
    assert!(edit.edits("file:///pkg/src/other.tengo").is_none());
}

#[test]
fn renames_from_consumer_selector_field() {
    let consumer = "util := import(\":util\")\nz := util.doThing()\n";
    let disk = thing_pkg(consumer);
    let at = pos(consumer, "doThing", 0);
    let edit = rename_on(&disk, "/pkg/src/a.lib.tengo", at, "perform");
    let m_edits = edit.edits("file:///pkg/src/util.lib.tengo").unwrap();
    assert_eq!(m_edits.len(), 3, "module not fully renamed: {m_edits:?}");
    assert_eq!(edit.edits("file:///pkg/src/a.lib.tengo").unwrap().len(), 1);
}

#[test]
fn overlay_overrides_stale_disk_for_consumer() {
    // The file on disk does not use the member; the unsaved buffer does.
    let stale = "util := import(\":util\")\n";
    let live = "util := import(\":util\")\nz := util.doThing()\n";
    let at = pos(DO_THING, "doThing", 0);
    let old = rename_on(&thing_pkg(stale), "/pkg/src/util.lib.tengo", at, "perform");
    assert!(old.edits("file:///pkg/src/a.lib.tengo").is_none());
    let disk = thing_pkg(stale).edit("/pkg/src/a.lib.tengo", live);
    let new = rename_on(&disk, "/pkg/src/util.lib.tengo", at, "perform");
    assert!(
        new.edits("file:///pkg/src/a.lib.tengo").map_or(false, |e| e.len() == 1),
        "overlay usage not renamed: {new:?}"
    );
}

#[test]
fn allows_name_to_name_export_key() {
    let state = parse("file:///tmp/m.tengo", DO_THING);
    assert!(prepare_rename(&state, pos(DO_THING, "doThing", 1)).is_some());
}

#[test]
fn a_field_is_no_use_of_a_variable() {
    let src = "count := 1\nx := obj.count\ny := {count: 2}\n";
    let state = parse("file:///tmp/a.tengo", src);
    let edit = rename_in(&state, Position::new(0, 0), "n").expect("rename ok");
    let edits = edit.edits("file:///tmp/a.tengo").unwrap();
    assert_eq!(edits.len(), 1);
    assert_eq!(edits[0].range, Range::new(Position::new(0, 0), Position::new(0, 5)));
    // Nor does the field lead to the variable.
    let field = pos(src, "count", 1);
    assert!(find_references(&state, field, true, None).is_none());
    assert!(matches!(rename_in(&state, field, "n"), Err(RenameError::NotRenameable)));
    let key = pos(src, "count", 2);
    assert!(find_references(&state, key, true, None).is_none());
}

#[test]
fn a_divergent_export_is_not_renamed_from_outside() {
    let user = "util := import(\":util\")\nz := util.ext\n";
    for module in [
        "local := 1\nexport {\n    ext: local\n}\n",
        "export {\n    ext: 42\n}\n",
        "export {\n    ext: func() {\n        return 1\n    }\n}\n",
        "ext := 1\nexport {\n    ext: 42\n}\n",
        "ext := 1\nexport {\n    \"ext\": ext\n}\n",
    ] {
        let disk = Disk::new(&[
            ("/pkg/package.json", "{}"),
            ("/pkg/src/util.lib.tengo", module),
            ("/pkg/src/c.lib.tengo", user),
        ]);
        let state = disk.open("/pkg/src/c.lib.tengo");
        let at = pos(user, "ext", 0);
        let workspace = disk.gather(&state, at);
        assert!(find_references(&state, at, true, workspace.as_ref()).is_some());
        let r = rename(&state, at, "other", workspace.as_ref());
        assert!(matches!(r, Err(RenameError::NotRenameable)), "{module}");
    }
}

#[test]
fn a_private_name_is_renamed_without_the_key() {
    let module = "thing := 1\nuse := thing\n\nexport {\n    thing: 42\n}\n";
    let disk = Disk::new(&[("/pkg/package.json", "{}"), ("/pkg/src/util.lib.tengo", module)]);
    let edit = rename_on(&disk, "/pkg/src/util.lib.tengo", Position::new(0, 0), "other");
    let edits = edit.edits("file:///pkg/src/util.lib.tengo").unwrap();
    let lines: Vec<u32> = edits.iter().map(|e| e.range.start.line).collect();
    assert_eq!(lines, vec![0, 1]);
}

#[test]
fn every_key_of_a_member_counts() {
    let module = "a := 1\nexport {\n    a: a,\n    a: a\n}\n";
    let tree = tree_of(module);
    let keys = export_key_ranges_with_tree(module, &tree, "a");
    let starts: Vec<Position> = keys.iter().map(|k| k.start).collect();
    assert_eq!(starts, vec![Position::new(2, 4), Position::new(3, 4)]);
    let path = "/pkg/src/util.lib.tengo";
    let disk = Disk::new(&[("/pkg/package.json", "{}"), (path, module)]);
    // The definition, two keys and two values, from wherever they are asked for.
    for at in [Position::new(0, 0), Position::new(2, 4), Position::new(3, 4), Position::new(3, 7)] {
        let locs = search(&disk, path, at, true).unwrap();
        assert_eq!(locs.len(), 5);
        let edit = rename_on(&disk, path, at, "b");
        assert_eq!(edit.edits("file:///pkg/src/util.lib.tengo").unwrap().len(), 5);
    }
}

#[test]
fn one_divergent_key_is_enough_to_refuse() {
    let path = "/pkg/src/util.lib.tengo";
    for module in [
        "a := 1\nexport {\n    a: a,\n    a: 42\n}\n",
        "a := 1\nexport {\n    a: 42,\n    a: a\n}\n",
        "a := 1\nexport {\n    a: a,\n    \"a\": a\n}\n",
    ] {
        assert!(exports_itself_with_tree(module, &tree_of(module), "a"));
        let disk = Disk::new(&[("/pkg/package.json", "{}"), (path, module)]);
        let state = disk.open(path);
        let at = Position::new(0, 0);
        let workspace = disk.gather(&state, at);
        let r = rename(&state, at, "b", workspace.as_ref());
        assert!(matches!(r, Err(RenameError::NotRenameable)), "{module}");
    }
}

#[test]
fn the_declaration_adds_itself() {
    let disk = build_pkg();
    let path = "/pkg/src/util.lib.tengo";
    let at = pos(disk.read(path).unwrap(), "doThing", 0);
    let with = search(&disk, path, at, true).unwrap();
    let without = search(&disk, path, at, false).unwrap();
    assert_eq!(with[0].range.start, Position::new(0, 0));
    assert_eq!(with[1..], without[..]);
}
