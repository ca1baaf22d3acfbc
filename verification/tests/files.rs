//! Import paths, the workspace and the command line.

use tengo_lsp::backend::full_document_range;
use tengo_lsp::cli::choose_output;
use tengo_lsp::cli::exit_code;
use tengo_lsp::cli::parse_args;
use tengo_lsp::cli::Command;
use tengo_lsp::cli::Output;
use tengo_lsp::lsp::Position;
use tengo_lsp::rename::is_valid_identifier;
use tengo_lsp::resolver::ancestors;
use tengo_lsp::resolver::find_up_with_child;
use tengo_lsp::resolver::resolve_among;
use tengo_lsp::resolver::resolve_import;
use tengo_lsp::resolver::split_package_artifact;
use tengo_lsp::resolver::uri_to_path;
use tengo_lsp::resolver::Place;
use tengo_lsp::text::is_whitespace;
use tengo_lsp::workspace::effective_roots;
use tengo_lsp::workspace::is_tengo_file;
use tengo_lsp::workspace::live_source;
use tengo_lsp::workspace::roots_among;
use tengo_lsp::workspace::search_roots;
use tengo_lsp::workspace::workspace_roots;
use tengo_lsp::workspace::Scan;
use tengo_lsp::workspace::Step;
use tengo_lsp::workspace::MAX_FILES;

fn split(module: &str) -> Option<(String, String)> {
    split_package_artifact(module)
}

fn pair(a: &str, b: &str) -> Option<(String, String)> {
    Some((a.to_string(), b.to_string()))
}

#[test]
fn stdlib_modules_do_not_resolve() {
    assert!(resolve_import("fmt", "/any/file.tengo", &|_: &Place| true).is_none());
    assert!(resolve_import("text", "/any/file.tengo", &|_: &Place| true).is_none());
}

#[test]
fn splits_scoped_and_plain_package_artifacts() {
    assert_eq!(split("@scope/pkg:index"), pair("@scope/pkg", "index"));
    assert_eq!(split("pkg:util"), pair("pkg", "util"));
    assert_eq!(split("@scope/pkg:pframes.util"), pair("@scope/pkg", "pframes.util"));
    assert_eq!(split("a:b:c"), pair("a:b", "c"));
}

#[test]
fn rejects_malformed_package_artifacts() {
    assert_eq!(split("noColonHere"), None);
    assert_eq!(split(":local"), None);
    assert_eq!(split("pkg:"), None);
}

#[test]
fn uri_to_path_strips_scheme_and_decodes_spaces() {
    assert_eq!(uri_to_path("file:///a/b/c.tengo").as_deref(), Some("/a/b/c.tengo"));
    assert_eq!(uri_to_path("file:///a%20b/c.tengo").as_deref(), Some("/a b/c.tengo"));
    assert_eq!(uri_to_path("/no/scheme"), None);
    assert_eq!(uri_to_path("file://%20%20x%2").as_deref(), Some("  x%2"));
    for path in ["/a b/c", "/%2 0", " %", "/plain"] {
        let uri = format!("file://{}", path.replace(' ', "%20"));
        assert_eq!(uri_to_path(&uri).as_deref(), Some(path));
    }
}

#[test]
fn directories_go_from_the_inside_out() {
    assert_eq!(ancestors("/pkg/src/a.tengo"), vec!["/pkg/src", "/pkg", "/"]);
    assert_eq!(ancestors("a.tengo"), vec![""]);
    assert_eq!(ancestors("/a.tengo"), vec!["/"]);
    assert!(ancestors("/").is_empty());
    assert_eq!(ancestors("/v1.0./a:b/c"), vec!["/v1.0./a:b", "/v1.0.", "/"]);
    assert_eq!(ancestors("/a/b:c.tengo"), vec!["/a", "/"]);
    assert!(ancestors("").is_empty());
}

fn path_of(p: &Place) -> String {
    let mut out = p.dir.clone();
    for part in &p.parts {
        if !out.ends_with('/') {
            out.push('/');
        }
        out.push_str(part);
    }
    out
}

fn resolve(files: &[&str], module: &str, from: &str) -> Option<String> {
    let probe = |p: &Place| {
        let path = path_of(p);
        let inside = format!("{}/", path);
        files.iter().any(|f| *f == path || f.starts_with(&inside))
    };
    resolve_import(module, from, &probe).map(|p| path_of(&p))
}

#[test]
fn local_artifacts_lie_in_the_source_of_the_package() {
    let from = "/w/pkg/src/deep/a.tengo";
    let files = [
        "/w/package.json",
        "/w/pkg/package.json",
        "/w/src/util.lib.tengo",
        "/w/pkg/src/util.tpl.tengo",
        "/w/pkg/src/util.tengo",
        "/w/pkg/src/pframes/pcolumn.lib.tengo",
        "/w/pkg/src/dir/index.tengo",
        "/w/pkg/dist/tengo/lib/pub.mod.lib.tengo",
    ];
    let at = |m: &str| resolve(&files, m, from);
    assert_eq!(at(":util").as_deref(), Some("/w/pkg/src/util.tpl.tengo"));
    assert_eq!(at(":pframes.pcolumn").as_deref(), Some("/w/pkg/src/pframes/pcolumn.lib.tengo"));
    assert_eq!(at(":dir").as_deref(), Some("/w/pkg/src/dir/index.tengo"));
    assert_eq!(at(":pub.mod").as_deref(), Some("/w/pkg/dist/tengo/lib/pub.mod.lib.tengo"));
    assert_eq!(at(":nope"), None);
    assert_eq!(at("plain"), None);
    assert_eq!(resolve(&["/x/src/util.tengo"], ":util", "/x/src/a.tengo"), None);
    // A package in the root.
    let root = ["/package.json", "/src/util.tengo", "/node_modules/p/src/index.tengo"];
    assert_eq!(resolve(&root, ":util", "/src/a.tengo").as_deref(), Some("/src/util.tengo"));
    assert_eq!(
        resolve(&root, "p:index", "/src/a.tengo").as_deref(),
        Some("/node_modules/p/src/index.tengo")
    );
}

#[test]
fn package_artifacts_lie_below_the_nearest_package() {
    let from = "/w/pkg/src/a.tengo";
    let files = [
        "/w/node_modules/@s/p/dist/tengo/software/tool.sw.json",
        "/w/node_modules/@s/p/dist/tengo/asset/pic.as.json",
        "/w/pkg/node_modules/@s/p/src/index.lib.tengo",
    ];
    let at = |m: &str| resolve(&files, m, from);
    assert_eq!(at("@s/p:index").as_deref(), Some("/w/pkg/node_modules/@s/p/src/index.lib.tengo"));
    // The nearer package lacks these, so the search goes on.
    assert_eq!(
        at("@s/p:tool").as_deref(),
        Some("/w/node_modules/@s/p/dist/tengo/software/tool.sw.json")
    );
    assert_eq!(
        at("@s/p:pic").as_deref(),
        Some("/w/node_modules/@s/p/dist/tengo/asset/pic.as.json")
    );
    assert_eq!(at("@s/other:index"), None);
}

#[test]
fn what_is_there_is_what_was_asked_for() {
    let dirs = vec!["/a/b".to_string(), "/a".to_string()];
    let probe = |p: &Place| p.dir == "/a" && p.parts.last().map(|x| x.as_str()) == Some("package.json");
    assert_eq!(find_up_with_child(&dirs, "package.json", &probe).as_deref(), Some("/a"));
    assert_eq!(find_up_with_child(&dirs, "other", &probe), None);
    assert!(resolve_among(":x", &dirs, &probe).is_none());
    let found = resolve_among(":x.y", &dirs, &|_: &Place| true).unwrap();
    assert_eq!((found.dir.as_str(), found.parts), ("/a/b", vec!["src".to_string(), "x/y.lib.tengo".to_string()]));
}

#[test]
fn full_range_empty() {
    assert_eq!(full_document_range("").end, Position::new(0, 0));
}

#[test]
fn full_range_single_line_no_newline() {
    assert_eq!(full_document_range("x := 1").end, Position::new(0, 6));
}

#[test]
fn full_range_trailing_newline() {
    assert_eq!(full_document_range("a\nbb\n").end, Position::new(2, 0));
}

#[test]
fn full_range_counts_utf16_units() {
    assert_eq!(full_document_range("café").end, Position::new(0, 4));
    assert_eq!(full_document_range("x🦀").end, Position::new(0, 3));
}

#[test]
fn a_search_visits_each_file_once() {
    let mut scan = Scan::new();
    assert!(scan.enters("src"));
    for dir in ["node_modules", "dist", "target", ".git"] {
        assert!(!scan.enters(dir));
    }
    assert_eq!(scan.step("a.tengo", "/a.tengo"), Step::Visit);
    assert_eq!(scan.step("a.tengo", "/a.tengo"), Step::Skip);
    assert_eq!(scan.step("a.txt", "/a.txt"), Step::Skip);
    assert_eq!(scan.step("b.lib.tengo", "/b.lib.tengo"), Step::Visit);
    assert!(is_tengo_file("x.tengo"));
    assert!(!is_tengo_file(".tengo"));
    assert!(!is_tengo_file("tengo"));
}

#[test]
fn a_search_ends_when_it_is_full() {
    let mut scan = Scan::new();
    for i in 0..MAX_FILES {
        assert!(!scan.is_full());
        let name = format!("{}.tengo", i);
        assert_eq!(scan.step(&name, &name), Step::Visit);
    }
    assert!(scan.is_full());
    assert!(!scan.enters("src"));
    assert_eq!(scan.step("more.tengo", "more.tengo"), Step::Stop);
    assert_eq!(scan.step("0.tengo", "0.tengo"), Step::Skip);
}

#[test]
fn roots_fall_back_to_the_package_and_the_directory() {
    let s = |x: &str| x.to_string();
    let none: Vec<String> = Vec::new();
    assert_eq!(effective_roots(vec![s("/w")], Some(s("/p")), Some(s("/d"))), vec!["/w"]);
    assert_eq!(effective_roots(none.clone(), Some(s("/p")), Some(s("/d"))), vec!["/p"]);
    assert_eq!(effective_roots(none.clone(), None, Some(s("/d"))), vec!["/d"]);
    assert_eq!(effective_roots(none.clone(), None, None), none);
    assert_eq!(workspace_roots(vec![Some(s("/a")), None, Some(s("/b"))], Some(s("/r"))), vec!["/a", "/b"]);
    assert_eq!(workspace_roots(vec![None], Some(s("/r"))), vec!["/r"]);
    assert_eq!(workspace_roots(Vec::new(), None), none);
}

#[test]
fn a_file_is_searched_for_in_its_package() {
    let probe = |p: &Place| path_of(p) == "/w/package.json";
    let none: Vec<String> = Vec::new();
    assert_eq!(search_roots("/w/src/a.tengo", none.clone(), &probe), vec!["/w"]);
    assert_eq!(search_roots("/v/src/a.tengo", none.clone(), &probe), vec!["/v/src"]);
    assert_eq!(search_roots("/w/src/a.tengo", vec!["/r".to_string()], &probe), vec!["/r"]);
    assert_eq!(search_roots("", none.clone(), &probe), none);
    assert_eq!(roots_among(&vec!["/a".to_string(), "/w".to_string()], none, &probe), vec!["/w"]);
}

#[test]
fn a_buffer_counts_for_more_than_the_disk() {
    let disk = || Some("disk".to_string());
    assert_eq!(live_source(Some("buffer".to_string()), &disk).as_deref(), Some("buffer"));
    assert_eq!(live_source(None, &disk).as_deref(), Some("disk"));
    assert_eq!(live_source(None, &|| None), None);
}

fn command(args: &[&str]) -> Command {
    parse_args(&args.iter().map(|a| a.to_string()).collect())
}

#[test]
fn arguments_give_a_command() {
    assert!(matches!(command(&[]), Command::Stdin));
    assert!(matches!(command(&["-w"]), Command::Stdin));
    assert!(matches!(command(&["a", "--help"]), Command::Help));
    assert!(matches!(command(&["-h"]), Command::Help));
    assert!(
        matches!(command(&["a", "--write", "b"]), Command::Files { write: true, files } if files == vec!["a", "b"])
    );
    assert!(
        matches!(command(&["a"]), Command::Files { write: false, files } if files == vec!["a"])
    );
    assert_eq!(exit_code(&vec![]), 0);
    assert_eq!(exit_code(&vec![false, false]), 0);
    assert_eq!(exit_code(&vec![false, true, false]), 1);
    assert_eq!(choose_output(false, "a", "a"), Output::Print);
    assert_eq!(choose_output(true, "a", "a"), Output::Keep);
    assert_eq!(choose_output(true, "a", "b"), Output::Write);
}

#[test]
fn identifiers_are_letters_and_digits() {
    for good in ["a", "_", "_1", "Ab9_z"] {
        assert!(is_valid_identifier(good), "{good}");
    }
    for bad in ["", "1", "a-b", "é", "a b"] {
        assert!(!is_valid_identifier(bad), "{bad}");
    }
}

#[test]
fn white_space_is_unicode_white_space() {
    for n in 0..0x11_0000u32 {
        if let Some(c) = char::from_u32(n) {
            assert_eq!(is_whitespace(c), c.is_whitespace(), "{n:x}");
        }
    }
}
