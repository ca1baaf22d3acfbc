//! From import paths to files.
//!
//! A place is a directory and the parts of a path below it. Whether something
//! is there only the file system knows: it is asked through a function that
//! the caller hands in.

use vstd::prelude::*;
use vstd::slice::slice_subrange;
use vstd::string::*;

use crate::text::chars;
use crate::text::find_text;
use crate::text::is_one_of;
use crate::text::opt_view;
use crate::text::position_of;
use crate::text::push_chars;
use crate::text::push_text;
use crate::text::string;
use crate::text::strings;
use crate::text::strip_prefix;
use crate::text_facts::lemma_position_of;
use crate::text_facts::stands_at;

verus! {

/// The modules of Tengo's standard library, which are no files.
pub open spec fn stdlib_modules() -> Seq<Seq<char>> {
    seq![
        "base64"@,
        "enum"@,
        "fmt"@,
        "hex"@,
        "json"@,
        "math"@,
        "os"@,
        "rand"@,
        "text"@,
        "times"@,
    ]
}

/// The place of the last `c` in `s`.
pub open spec fn last_of(s: Seq<char>, c: char) -> Option<int>
    decreases s.len(),
{
    if s.len() == 0 {
        None
    } else if s.last() == c {
        Some(s.len() - 1)
    } else {
        last_of(s.drop_last(), c)
    }
}

/// A package and an artifact in it, parted by the last colon; neither is
/// empty.
pub open spec fn package_artifact(module: Seq<char>) -> Option<(Seq<char>, Seq<char>)> {
    match last_of(module, ':') {
        Some(i) => if i > 0 && i + 1 < module.len() {
            Some((module.take(i), module.skip(i + 1)))
        } else {
            None
        },
        None => None,
    }
}

/// `s` with each `from` in it replaced by `to`.
pub open spec fn replaced(s: Seq<char>, from: Seq<char>, to: Seq<char>) -> Seq<char>
    decreases s.len(),
{
    match position_of(s, from) {
        Some(i) => if from.len() > 0 && 0 <= i && i + from.len() <= s.len() {
            s.take(i) + to + replaced(s.skip(i + from.len()), from, to)
        } else {
            s
        },
        None => s,
    }
}

/// The path that a `file://` address names.
pub open spec fn path_of_uri(uri: Seq<char>) -> Option<Seq<char>> {
    if "file://"@.is_prefix_of(uri) {
        Some(replaced(uri.skip("file://"@.len() as int), "%20"@, " "@))
    } else {
        None
    }
}

/// The places below a package's directory where an artifact may lie, in the
/// order in which they count: the source layout first, where dots part
/// directories, then the published one, where they do not.
pub open spec fn candidates(artifact: Seq<char>) -> Seq<Seq<Seq<char>>> {
    let id = replaced(artifact, "."@, "/"@);
    seq![
        seq!["src"@, id + ".lib.tengo"@],
        seq!["src"@, id + ".tpl.tengo"@],
        seq!["src"@, id + ".tengo"@],
        seq!["src"@, id + ".sw.json"@],
        seq!["src"@, id + ".as.json"@],
        seq!["src"@, id, "index.lib.tengo"@],
        seq!["src"@, id, "index.tpl.tengo"@],
        seq!["src"@, id, "index.tengo"@],
        seq!["dist"@, "tengo"@, "lib"@, artifact + ".lib.tengo"@],
        seq!["dist"@, "tengo"@, "software"@, artifact + ".sw.json"@],
        seq!["dist"@, "tengo"@, "asset"@, artifact + ".as.json"@],
    ]
}

/// A place: a directory, and the parts of a path below it.
#[derive(Debug)]
pub struct Place {
    pub dir: String,
    pub parts: Vec<String>,
}

/// What a [`Place`] holds.
#[verifier::ext_equal]
pub struct PlaceView {
    pub dir: Seq<char>,
    pub parts: Seq<Seq<char>>,
}

impl View for Place {
    type V = PlaceView;

    open spec fn view(&self) -> PlaceView {
        PlaceView { dir: self.dir@, parts: strings(self.parts@) }
    }
}

/// Whether `probe` can be asked of any place.
pub open spec fn answers<F: Fn(&Place) -> bool>(probe: F) -> bool {
    forall|p: &Place| #[trigger] call_requires(probe, (p,))
}

/// Whether `probe`, asked whether something is at `place`, can say `there`.
pub open spec fn said<F: Fn(&Place) -> bool>(probe: F, place: PlaceView, there: bool) -> bool {
    exists|p: &Place| p@ == place && #[trigger] call_ensures(probe, (p,), there)
}

/// Whether `probe` says of each of the first `to` places that nothing is
/// there.
pub open spec fn none_there<F: Fn(&Place) -> bool>(
    probe: F,
    places: Seq<PlaceView>,
    to: int,
) -> bool {
    forall|i: int| 0 <= i < to ==> said(probe, #[trigger] places[i], false)
}

/// The candidate places of an artifact in the package at `root`.
pub open spec fn artifact_places(root: PlaceView, artifact: Seq<char>) -> Seq<PlaceView> {
    candidates(artifact).map_values(
        |parts: Seq<Seq<char>>| PlaceView { dir: root.dir, parts: root.parts + parts },
    )
}

/// Whether `found` is the first of `places` where `probe` says that something
/// is, or none where it says so of none.
pub open spec fn first_there<F: Fn(&Place) -> bool>(
    probe: F,
    places: Seq<PlaceView>,
    found: Option<PlaceView>,
) -> bool {
    match found {
        Some(p) => exists|k: int|
            0 <= k < places.len() && #[trigger] places[k] == p && said(probe, p, true)
                && none_there(probe, places, k),
        None => none_there(probe, places, places.len() as int),
    }
}

/// The file `name` in each of `dirs`.
pub open spec fn in_each(dirs: Seq<Seq<char>>, name: Seq<char>) -> Seq<PlaceView> {
    dirs.map_values(|d: Seq<char>| PlaceView { dir: d, parts: seq![name] })
}

/// Whether `found` is the nearest of `dirs` that holds `name`.
pub open spec fn nearest_with<F: Fn(&Place) -> bool>(
    probe: F,
    dirs: Seq<Seq<char>>,
    name: Seq<char>,
    found: Option<Seq<char>>,
) -> bool {
    first_there(
        probe,
        in_each(dirs, name),
        match found {
            Some(d) => Some(PlaceView { dir: d, parts: seq![name] }),
            None => None,
        },
    )
}

/// Whether `found` is where an artifact of the own package lies: a candidate
/// place in the nearest of `dirs` that holds a `package.json`.
pub open spec fn found_locally<F: Fn(&Place) -> bool>(
    probe: F,
    dirs: Seq<Seq<char>>,
    artifact: Seq<char>,
    found: Option<PlaceView>,
) -> bool {
    ||| nearest_with(probe, dirs, "package.json"@, None) && found is None
    ||| exists|root: Seq<char>| #[trigger]
        nearest_with(probe, dirs, "package.json"@, Some(root)) && first_there(
            probe,
            artifact_places(PlaceView { dir: root, parts: seq![] }, artifact),
            found,
        )
}

/// The directory of a package below `dir`.
pub open spec fn package_dir(dir: Seq<char>, pkg: Seq<char>) -> PlaceView {
    PlaceView { dir, parts: seq!["node_modules"@, pkg] }
}

/// Whether the package is not below `dir`, or does not hold the artifact.
pub open spec fn lacks<F: Fn(&Place) -> bool>(
    probe: F,
    dir: Seq<char>,
    pkg: Seq<char>,
    artifact: Seq<char>,
) -> bool {
    let root = package_dir(dir, pkg);
    ||| said(probe, root, false)
    ||| said(probe, root, true) && first_there(probe, artifact_places(root, artifact), None)
}

/// Whether `found` is where an artifact of another package lies: a candidate
/// place in the package below the nearest of `dirs` that has one.
pub open spec fn found_in_package<F: Fn(&Place) -> bool>(
    probe: F,
    dirs: Seq<Seq<char>>,
    pkg: Seq<char>,
    artifact: Seq<char>,
    found: Option<PlaceView>,
) -> bool {
    match found {
        Some(p) => exists|k: int|
            #![trigger dirs[k]]
            0 <= k < dirs.len() && said(probe, package_dir(dirs[k], pkg), true) && first_there(
                probe,
                artifact_places(package_dir(dirs[k], pkg), artifact),
                found,
            ) && (forall|j: int| 0 <= j < k ==> lacks(probe, #[trigger] dirs[j], pkg, artifact)),
        None => forall|j: int| 0 <= j < dirs.len() ==> lacks(probe, #[trigger] dirs[j], pkg, artifact),
    }
}

/// Whether `found` is where the module lies that a file imports whose
/// directory and the directories around it are `dirs`.
pub open spec fn found_among<F: Fn(&Place) -> bool>(
    probe: F,
    dirs: Seq<Seq<char>>,
    module: Seq<char>,
    found: Option<PlaceView>,
) -> bool {
    if stdlib_modules().contains(module) {
        found is None
    } else if module.len() > 0 && module[0] == ':' {
        found_locally(probe, dirs, module.skip(1), found)
    } else {
        match package_artifact(module) {
            Some((pkg, artifact)) => found_in_package(probe, dirs, pkg, artifact, found),
            None => found is None,
        }
    }
}

/// Whether `name` is a plain name behind a slash on any platform.
pub open spec fn plain_name(name: Seq<char>) -> bool {
    &&& name.len() > 0
    &&& name != "."@
    &&& name != ".."@
    &&& !name.contains('/')
    &&& !name.contains('\\')
}

/// Whether `dir` is a path on any platform that neither ends in a separator
/// or a component `.` nor begins with what some platform takes for a prefix.
pub open spec fn plain_dir(dir: Seq<char>) -> bool {
    &&& dir.len() > 0
    &&& dir.last() != '/'
    &&& dir != "."@
    &&& !"/."@.is_suffix_of(dir)
    &&& !"//"@.is_prefix_of(dir)
    &&& !dir.contains('\\')
    &&& !(dir.len() >= 2 && dir[1] == ':')
}

/// Whether `path` is the plain name `name` in the directory `dir`: below
/// another directory, below the root, or on its own.
pub open spec fn plain_path(path: Seq<char>, dir: Seq<char>, name: Seq<char>) -> bool {
    &&& plain_name(name)
    &&& {
        ||| plain_dir(dir) && path == dir + "/"@ + name
        ||| dir == "/"@ && path == "/"@ + name
        ||| dir == ""@ && path == name && !(name.len() >= 2 && name[1] == ':')
    }
}

/// Whether `parent` can be the path without its last component, as far as all
/// platforms agree on it.
pub open spec fn may_be_parent(path: Seq<char>, parent: Option<Seq<char>>) -> bool {
    &&& parent matches Some(p) ==> p.is_prefix_of(path) && p.len() < path.len()
    &&& path == ""@ || path == "/"@ ==> parent is None
    &&& forall|dir: Seq<char>, name: Seq<char>| #[trigger]
        plain_path(path, dir, name) ==> parent == Some(dir)
}

/// The path whose directory stands at place `i`.
pub open spec fn path_before(file: Seq<char>, dirs: Seq<Seq<char>>, i: int) -> Seq<char> {
    if i <= 0 {
        file
    } else {
        dirs[i - 1]
    }
}

/// Whether `dirs` can be the directory of a file and those around it, from
/// the inside out, up to one that lies in no other.
pub open spec fn may_be_ancestors(file: Seq<char>, dirs: Seq<Seq<char>>) -> bool {
    &&& forall|i: int|
        0 <= i < dirs.len() ==> may_be_parent(
            path_before(file, dirs, i),
            Some(#[trigger] dirs[i]),
        )
    &&& may_be_parent(path_before(file, dirs, dirs.len() as int), None)
}

/// Whether all platforms agree on the directories around `path`: each is that
/// of a plain name, up to the root or the empty path.
pub open spec fn agreed(path: Seq<char>) -> bool
    decreases path.len(),
{
    ||| path == ""@
    ||| path == "/"@
    ||| exists|dir: Seq<char>, name: Seq<char>|
        dir.len() < path.len() && #[trigger] plain_path(path, dir, name) && agreed(dir)
}

/// The directories around a path on which all platforms agree are one list.
pub proof fn law_agreed_ancestors(file: Seq<char>, a: Seq<Seq<char>>, b: Seq<Seq<char>>)
    requires
        agreed(file),
        may_be_ancestors(file, a),
        may_be_ancestors(file, b),
    ensures
        a == b,
    decreases file.len(),
{
    lemma_first_ancestor(file, a);
    lemma_first_ancestor(file, b);
    if file == ""@ || file == "/"@ {
        assert(a =~= b);
    } else {
        let (dir, name) = choose|dir: Seq<char>, name: Seq<char>|
            dir.len() < file.len() && #[trigger] plain_path(file, dir, name) && agreed(dir);
        law_agreed_ancestors(dir, a.skip(1), b.skip(1));
        assert(a =~= seq![a[0]] + a.skip(1));
        assert(b =~= seq![b[0]] + b.skip(1));
    }
}

proof fn lemma_first_ancestor(file: Seq<char>, dirs: Seq<Seq<char>>)
    requires
        may_be_ancestors(file, dirs),
    ensures
        dirs.len() == 0 ==> may_be_parent(file, None),
        dirs.len() > 0 ==> may_be_parent(file, Some(dirs[0])) && may_be_ancestors(
            dirs[0],
            dirs.skip(1),
        ),
{
    if dirs.len() > 0 {
        let rest = dirs.skip(1);
        assert(path_before(file, dirs, 0) == file);
        assert(may_be_parent(path_before(file, dirs, 0), Some(dirs[0])));
        assert forall|i: int| 0 <= i < rest.len() implies may_be_parent(
            path_before(dirs[0], rest, i),
            Some(#[trigger] rest[i]),
        ) by {
            assert(rest[i] == dirs[i + 1]);
            assert(path_before(dirs[0], rest, i) == path_before(file, dirs, i + 1));
        }
        assert(path_before(dirs[0], rest, rest.len() as int) == path_before(
            file,
            dirs,
            dirs.len() as int,
        ));
    }
}

/// A module of the standard library is no file, whatever is on disk.
pub proof fn law_stdlib_has_no_file<F: Fn(&Place) -> bool>(
    probe: F,
    dirs: Seq<Seq<char>>,
    module: Seq<char>,
    found: Option<PlaceView>,
)
    requires
        stdlib_modules().contains(module),
        found_among(probe, dirs, module, found),
    ensures
        found is None,
{
}

/// Whatever a module is resolved to was there when it was asked for, below
/// the file's directory or one around it.
pub proof fn law_found_is_there<F: Fn(&Place) -> bool>(
    probe: F,
    dirs: Seq<Seq<char>>,
    module: Seq<char>,
    found: PlaceView,
)
    requires
        found_among(probe, dirs, module, Some(found)),
    ensures
        said(probe, found, true),
        dirs.contains(found.dir),
{
    if module[0] == ':' {
        let root = choose|root: Seq<char>| #[trigger]
            nearest_with(probe, dirs, "package.json"@, Some(root)) && first_there(
                probe,
                artifact_places(PlaceView { dir: root, parts: seq![] }, module.skip(1)),
                Some(found),
            );
        let places = in_each(dirs, "package.json"@);
        let at = PlaceView { dir: root, parts: seq!["package.json"@] };
        let k = choose|k: int|
            0 <= k < places.len() && #[trigger] places[k] == at && said(probe, at, true)
                && none_there(probe, places, k);
        assert(dirs[k] == root);
        let all = artifact_places(PlaceView { dir: root, parts: seq![] }, module.skip(1));
        let j = choose|j: int|
            0 <= j < all.len() && #[trigger] all[j] == found && said(probe, found, true)
                && none_there(probe, all, j);
    } else {
        let (pkg, artifact) = package_artifact(module)->0;
        let k = choose|k: int|
            #![trigger dirs[k]]
            0 <= k < dirs.len() && said(probe, package_dir(dirs[k], pkg), true) && first_there(
                probe,
                artifact_places(package_dir(dirs[k], pkg), artifact),
                Some(found),
            ) && (forall|j: int| 0 <= j < k ==> lacks(probe, #[trigger] dirs[j], pkg, artifact));
        let all = artifact_places(package_dir(dirs[k], pkg), artifact);
        let j = choose|j: int|
            0 <= j < all.len() && #[trigger] all[j] == found && said(probe, found, true)
                && none_there(probe, all, j);
    }
}

proof fn lemma_position_of_one(s: Seq<char>, c: char)
    ensures
        match position_of(s, seq![c]) {
            Some(i) => 0 <= i < s.len() && s[i] == c && (forall|k: int|
                0 <= k < i ==> #[trigger] s[k] != c),
            None => forall|k: int| 0 <= k < s.len() ==> #[trigger] s[k] != c,
        },
    decreases s.len(),
{
    if seq![c].is_prefix_of(s) {
        assert(s[0] == seq![c][0]);
    } else if s.len() > 0 {
        assert(s[0] != c) by {
            if s[0] == c {
                assert(seq![c] =~= s.take(1));
            }
        }
        let t = s.drop_first();
        lemma_position_of_one(t, c);
        assert forall|k: int| 0 < k < s.len() implies #[trigger] s[k] == t[k - 1] by {}
    }
}

/// `s` with each `.` turned into a `/`.
pub open spec fn dots_to_slashes(s: Seq<char>) -> Seq<char> {
    s.map_values(
        |c: char|
            if c == '.' {
                '/'
            } else {
                c
            },
    )
}

/// In the source layout the dots of an artifact's name part directories, and
/// nothing else in it changes.
pub proof fn law_dots_part_directories(artifact: Seq<char>)
    ensures
        replaced(artifact, "."@, "/"@) == dots_to_slashes(artifact),
    decreases artifact.len(),
{
    reveal_strlit(".");
    reveal_strlit("/");
    assert("."@ =~= seq!['.']);
    assert("/"@ =~= seq!['/']);
    lemma_position_of_one(artifact, '.');
    match position_of(artifact, "."@) {
        Some(i) => {
            let rest = artifact.skip(i + 1);
            law_dots_part_directories(rest);
            assert(artifact.take(i) + "/"@ + dots_to_slashes(rest) =~= dots_to_slashes(artifact));
        },
        None => {
            assert(artifact =~= dots_to_slashes(artifact));
        },
    }
}

/// A part that stands nowhere in a text stands nowhere in its tails.
proof fn lemma_tail_without(s: Seq<char>, part: Seq<char>, n: int)
    requires
        position_of(s, part) is None,
        0 <= n <= s.len(),
    ensures
        position_of(s.skip(n), part) is None,
{
    lemma_position_of(s, part);
    lemma_position_of(s.skip(n), part);
    if let Some(i) = position_of(s.skip(n), part) {
        assert(s.subrange(n + i, n + i + part.len()) =~= s.skip(n).subrange(i, i + part.len()));
        assert(stands_at(s, part, n + i));
    }
}

/// Writing the spaces of a path as `%20` and reading it again gives the path.
proof fn lemma_spaces_come_back(path: Seq<char>)
    requires
        position_of(path, "%20"@) is None,
    ensures
        replaced(replaced(path, " "@, "%20"@), "%20"@, " "@) == path,
    decreases path.len(),
{
    reveal_strlit("%20");
    reveal_strlit(" ");
    let code = "%20"@;
    let space = " "@;
    assert(space =~= seq![' ']);
    lemma_position_of(path, space);
    lemma_position_of(path, code);
    if let Some(i) = position_of(path, space) {
        let head = path.take(i);
        let rest = path.skip(i + 1);
        assert(path[i] == path.subrange(i, i + 1)[0]);
        lemma_tail_without(path, code, i + 1);
        lemma_spaces_come_back(rest);
        let tail = replaced(rest, space, code);
        let whole = head + code + tail;
        assert(replaced(path, space, code) == whole);
        lemma_position_of(whole, code);
        assert(whole.subrange(i, i + 3) =~= code);
        assert(stands_at(whole, code, i));
        let j = position_of(whole, code)->0;
        assert(whole.subrange(j, j + 3) == code);
        assert(whole[j] == code[0] && whole[j + 1] == code[1] && whole[j + 2] == code[2]) by {
            assert(whole[j] == whole.subrange(j, j + 3)[0]);
            assert(whole[j + 1] == whole.subrange(j, j + 3)[1]);
            assert(whole[j + 2] == whole.subrange(j, j + 3)[2]);
        }
        assert(whole[i] == '%');
        if j < i {
            if j + 3 <= i {
                assert(path.subrange(j, j + 3) =~= whole.subrange(j, j + 3));
                assert(stands_at(path, code, j));
            } else {
                assert(i == j + 1 || i == j + 2);
            }
        }
        assert(j == i);
        assert(whole.take(i) =~= head);
        assert(whole.skip(i + 3) =~= tail);
        assert(head + space + rest =~= path);
    }
}

/// The address of a path, its spaces written as `%20`, names that path.
pub proof fn law_address_names_path(path: Seq<char>)
    requires
        position_of(path, "%20"@) is None,
    ensures
        path_of_uri("file://"@ + replaced(path, " "@, "%20"@)) == Some(path),
{
    let written = replaced(path, " "@, "%20"@);
    let uri = "file://"@ + written;
    assert("file://"@ =~= uri.take("file://"@.len() as int));
    assert(uri.skip("file://"@.len() as int) =~= written);
    lemma_spaces_come_back(path);
}

/// The path without its last component, by `std::path::Path::parent`: a
/// shorter head of the path. Of a plain name behind a slash it is what stands
/// before the slash, or the slash itself where it comes first; of a plain name
/// on its own it is the empty path. The root and the empty path have none. Of
/// paths on which platforms differ (drives, backslashes, doubled slashes at
/// the front, a component `.` at the end) no more is said.
#[verifier::external_body]
fn parent_dir(path: &str) -> (r: Option<String>)
    ensures
        may_be_parent(path@, opt_view(r)),
{
    std::path::Path::new(path).parent().and_then(|p| p.to_str()).map(|p| p.to_string())
}

/// The directory of a file and the directories around it, from the inside
/// out.
pub fn ancestors(file: &str) -> (r: Vec<String>)
    ensures
        may_be_ancestors(file@, strings(r@)),
{
    let mut out: Vec<String> = Vec::new();
    let mut at: String = file.to_string();
    loop
        invariant
            forall|i: int|
                0 <= i < out@.len() ==> may_be_parent(
                    path_before(file@, strings(out@), i),
                    Some(#[trigger] strings(out@)[i]),
                ),
            at@ == path_before(file@, strings(out@), out@.len() as int),
        decreases at@.len(),
    {
        match parent_dir(at.as_str()) {
            Some(dir) => {
                let ghost before = strings(out@);
                let ghost inner = at@;
                at = dir.clone();
                out.push(dir);
                proof {
                    let now = strings(out@);
                    assert(now =~= before.push(dir@));
                    assert forall|i: int| 0 <= i < out@.len() implies may_be_parent(
                        path_before(file@, now, i),
                        Some(#[trigger] now[i]),
                    ) by {
                        if i < before.len() {
                            assert(now[i] == before[i]);
                            assert(path_before(file@, now, i) == path_before(file@, before, i));
                        } else {
                            assert(path_before(file@, now, i) == inner);
                        }
                    }
                }
            },
            None => {
                return out;
            },
        }
    }
}

/// Splits `pkg:artifact` at its last colon.
pub fn split_package_artifact(module: &str) -> (r: Option<(String, String)>)
    ensures
        match r {
            Some((p, a)) => package_artifact(module@) == Some((p@, a@)),
            None => package_artifact(module@) is None,
        },
{
    let cs = chars(module);
    let mut i: usize = cs.len();
    assert(cs@.take(i as int) =~= cs@);
    while i > 0 && cs[i - 1] != ':'
        invariant
            i <= cs@.len(),
            last_of(cs@, ':') == last_of(cs@.take(i as int), ':'),
        decreases i,
    {
        assert(cs@.take(i as int).last() == cs@[i - 1]);
        assert(cs@.take(i as int).drop_last() =~= cs@.take(i - 1));
        i -= 1;
    }
    if i > 0 {
        assert(cs@.take(i as int).last() == cs@[i - 1]);
    }
    if i <= 1 || i == cs.len() {
        return None;
    }
    let pkg = slice_subrange(&cs, 0, i - 1);
    let artifact = slice_subrange(&cs, i, cs.len());
    assert(pkg@ =~= cs@.take(i - 1));
    assert(artifact@ =~= cs@.skip(i as int));
    Some((string(pkg), string(artifact)))
}

/// `s` with each `from` replaced by `to`.
#[verifier::loop_isolation(false)]
fn replace(s: &[char], from: &str, to: &str) -> (r: Vec<char>)
    requires
        from@.len() > 0,
    ensures
        r@ == replaced(s@, from@, to@),
{
    let step = chars(from).len();
    let mut out: Vec<char> = Vec::new();
    let mut at: usize = 0;
    assert(s@.skip(0) =~= s@);
    assert(out@ + replaced(s@, from@, to@) =~= replaced(s@, from@, to@));
    loop
        invariant
            at <= s@.len(),
            out@ + replaced(s@.skip(at as int), from@, to@) == replaced(s@, from@, to@),
        decreases s@.len() - at,
    {
        let rest = slice_subrange(s, at, s.len());
        assert(rest@ =~= s@.skip(at as int));
        match find_text(rest, from) {
            Some(i) => {
                let ghost before = out@;
                let head = slice_subrange(rest, 0, i);
                push_chars(&mut out, head);
                push_text(&mut out, to);
                proof {
                    assert(head@ =~= rest@.take(i as int));
                    let tail = rest@.skip(i + from@.len());
                    assert(tail =~= s@.skip(at + i + step));
                    assert(before + (rest@.take(i as int) + to@ + replaced(tail, from@, to@)) =~= (
                    before + head@ + to@) + replaced(tail, from@, to@));
                }
                at = at + i + step;
            },
            None => {
                push_chars(&mut out, rest);
                return out;
            },
        }
    }
}

/// The path that a `file://` address names.
pub fn uri_to_path(uri: &str) -> (r: Option<String>)
    ensures
        opt_view(r) == path_of_uri(uri@),
{
    let cs = chars(uri);
    match strip_prefix(&cs, "file://") {
        Some(rest) => {
            proof {
                reveal_strlit("%20");
            }
            Some(string(&replace(rest, "%20", " ")))
        },
        None => None,
    }
}

/// Whether something is at the place, by `probe`.
fn is_there<F: Fn(&Place) -> bool>(probe: &F, place: &Place) -> (r: bool)
    requires
        answers(*probe),
    ensures
        said(*probe, place@, r),
{
    probe(place)
}

/// `parts` behind the parts of `root`, in its directory.
fn below(root: &Place, parts: &Vec<String>) -> (r: Place)
    ensures
        r@ == (PlaceView { dir: root@.dir, parts: root@.parts + strings(parts@) }),
{
    let mut all: Vec<String> = Vec::new();
    let mut i: usize = 0;
    assert(strings(all@) =~= root@.parts.take(0));
    while i < root.parts.len()
        invariant
            i <= root.parts@.len(),
            strings(all@) == root@.parts.take(i as int),
        decreases root.parts@.len() - i,
    {
        let part = root.parts[i].clone();
        let ghost before = strings(all@);
        all.push(part);
        assert(strings(all@) =~= before.push(root@.parts[i as int]));
        assert(root@.parts.take(i + 1) =~= root@.parts.take(i as int).push(root@.parts[i as int]));
        i += 1;
    }
    assert(root@.parts.take(root@.parts.len() as int) =~= root@.parts);
    let mut j: usize = 0;
    assert(root@.parts + strings(parts@).take(0) =~= root@.parts);
    while j < parts.len()
        invariant
            j <= parts@.len(),
            strings(all@) == root@.parts + strings(parts@).take(j as int),
        decreases parts@.len() - j,
    {
        let part = parts[j].clone();
        let ghost before = strings(all@);
        all.push(part);
        assert(strings(all@) =~= before.push(parts@[j as int]@));
        assert(strings(parts@).take(j + 1) =~= strings(parts@).take(j as int).push(
            parts@[j as int]@,
        ));
        assert((root@.parts + strings(parts@).take(j as int)).push(parts@[j as int]@)
            =~= root@.parts + strings(parts@).take(j + 1));
        j += 1;
    }
    assert(strings(parts@).take(parts@.len() as int) =~= strings(parts@));
    Place { dir: root.dir.clone(), parts: all }
}

/// `name` with `ending` behind it.
fn with_ending(name: &[char], ending: &str) -> (r: String)
    ensures
        r@ == name@ + ending@,
{
    let mut out = crate::text::copy(name);
    push_text(&mut out, ending);
    string(&out)
}

/// The parts of a path in directory `src`.
fn in_source(name: String) -> (r: Vec<String>)
    ensures
        strings(r@) == seq!["src"@, name@],
{
    let r = vec!["src".to_string(), name];
    assert(strings(r@) =~= seq!["src"@, name@]);
    r
}

/// The parts of the path of `index` in a directory below `src`.
fn index_in_source(id: &[char], index: &str) -> (r: Vec<String>)
    ensures
        strings(r@) == seq!["src"@, id@, index@],
{
    let r = vec!["src".to_string(), string(id), index.to_string()];
    assert(strings(r@) =~= seq!["src"@, id@, index@]);
    r
}

/// The parts of a path in the published layout.
fn in_dist(kind: &str, name: String) -> (r: Vec<String>)
    ensures
        strings(r@) == seq!["dist"@, "tengo"@, kind@, name@],
{
    let r = vec!["dist".to_string(), "tengo".to_string(), kind.to_string(), name];
    assert(strings(r@) =~= seq!["dist"@, "tengo"@, kind@, name@]);
    r
}

/// The places below a package's directory where an artifact may lie.
fn list_candidates(artifact: &str) -> (r: Vec<Vec<String>>)
    ensures
        r@.map_values(|p: Vec<String>| strings(p@)) =~= candidates(artifact@),
{
    let a = chars(artifact);
    proof {
        reveal_strlit(".");
    }
    let id = replace(&a, ".", "/");
    vec![
        in_source(with_ending(&id, ".lib.tengo")),
        in_source(with_ending(&id, ".tpl.tengo")),
        in_source(with_ending(&id, ".tengo")),
        in_source(with_ending(&id, ".sw.json")),
        in_source(with_ending(&id, ".as.json")),
        index_in_source(&id, "index.lib.tengo"),
        index_in_source(&id, "index.tpl.tengo"),
        index_in_source(&id, "index.tengo"),
        in_dist("lib", with_ending(&a, ".lib.tengo")),
        in_dist("software", with_ending(&a, ".sw.json")),
        in_dist("asset", with_ending(&a, ".as.json")),
    ]
}

/// The first candidate place of an artifact that is there, in the package at
/// `root`.
fn resolve_artifact_from_package_root<F: Fn(&Place) -> bool>(
    root: &Place,
    artifact: &str,
    probe: &F,
) -> (r: Option<Place>)
    requires
        answers(*probe),
    ensures
        first_there(
            *probe,
            artifact_places(root@, artifact@),
            match r {
                Some(p) => Some(p@),
                None => None,
            },
        ),
{
    let all = list_candidates(artifact);
    let ghost places = artifact_places(root@, artifact@);
    let ghost parts = all@.map_values(|p: Vec<String>| strings(p@));
    let mut i: usize = 0;
    while i < all.len()
        invariant
            i <= all@.len(),
            answers(*probe),
            parts == all@.map_values(|p: Vec<String>| strings(p@)),
            parts == candidates(artifact@),
            places == artifact_places(root@, artifact@),
            places.len() == all@.len(),
            none_there(*probe, places, i as int),
        decreases all@.len() - i,
    {
        let place = below(root, &all[i]);
        assert(parts[i as int] == strings(all@[i as int]@));
        assert(places[i as int] == place@);
        if is_there(probe, &place) {
            return Some(place);
        }
        i += 1;
    }
    None
}

/// The nearest of `dirs` that holds `name`.
pub fn find_up_with_child<F: Fn(&Place) -> bool>(dirs: &Vec<String>, name: &str, probe: &F) -> (r:
    Option<String>)
    requires
        answers(*probe),
    ensures
        nearest_with(*probe, strings(dirs@), name@, opt_view(r)),
{
    let ghost places = in_each(strings(dirs@), name@);
    let mut i: usize = 0;
    while i < dirs.len()
        invariant
            i <= dirs@.len(),
            answers(*probe),
            places == in_each(strings(dirs@), name@),
            none_there(*probe, places, i as int),
        decreases dirs@.len() - i,
    {
        let place = Place { dir: dirs[i].clone(), parts: vec![name.to_string()] };
        assert(strings(place.parts@) =~= seq![name@]);
        assert(places[i as int] == place@);
        if is_there(probe, &place) {
            return Some(dirs[i].clone());
        }
        i += 1;
    }
    None
}

/// Where an artifact of the own package lies.
fn resolve_local_artifact<F: Fn(&Place) -> bool>(
    artifact: &str,
    dirs: &Vec<String>,
    probe: &F,
) -> (r: Option<Place>)
    requires
        answers(*probe),
    ensures
        found_locally(
            *probe,
            strings(dirs@),
            artifact@,
            match r {
                Some(p) => Some(p@),
                None => None,
            },
        ),
{
    let dir = match find_up_with_child(dirs, "package.json", probe) {
        Some(d) => d,
        None => {
            return None;
        },
    };
    let ghost found = dir@;
    let root = Place { dir, parts: Vec::new() };
    assert(root@ =~= PlaceView { dir: found, parts: seq![] });
    assert(nearest_with(*probe, strings(dirs@), "package.json"@, Some(found)));
    resolve_artifact_from_package_root(&root, artifact, probe)
}

/// Where an artifact of another package lies.
fn resolve_node_module_artifact<F: Fn(&Place) -> bool>(
    pkg: &str,
    artifact: &str,
    dirs: &Vec<String>,
    probe: &F,
) -> (r: Option<Place>)
    requires
        answers(*probe),
    ensures
        found_in_package(
            *probe,
            strings(dirs@),
            pkg@,
            artifact@,
            match r {
                Some(p) => Some(p@),
                None => None,
            },
        ),
{
    let ghost all = strings(dirs@);
    let mut i: usize = 0;
    while i < dirs.len()
        invariant
            i <= dirs@.len(),
            answers(*probe),
            all == strings(dirs@),
            forall|j: int| 0 <= j < i ==> lacks(*probe, #[trigger] all[j], pkg@, artifact@),
        decreases dirs@.len() - i,
    {
        let root = Place {
            dir: dirs[i].clone(),
            parts: vec!["node_modules".to_string(), pkg.to_string()],
        };
        assert(strings(root.parts@) =~= seq!["node_modules"@, pkg@]);
        assert(root@ == package_dir(all[i as int], pkg@));
        if is_there(probe, &root) {
            if let Some(p) = resolve_artifact_from_package_root(&root, artifact, probe) {
                return Some(p);
            }
        }
        assert(lacks(*probe, all[i as int], pkg@, artifact@));
        i += 1;
    }
    None
}

/// Where the module lies that a file imports whose directory and the
/// directories around it are `dirs`.
pub fn resolve_among<F: Fn(&Place) -> bool>(module: &str, dirs: &Vec<String>, probe: &F) -> (r:
    Option<Place>)
    requires
        answers(*probe),
    ensures
        found_among(
            *probe,
            strings(dirs@),
            module@,
            match r {
                Some(p) => Some(p@),
                None => None,
            },
        ),
{
    let stdlib = [
        "base64",
        "enum",
        "fmt",
        "hex",
        "json",
        "math",
        "os",
        "rand",
        "text",
        "times",
    ];
    proof {
        let names = stdlib_modules();
        assert forall|i: int| 0 <= i < names.len() implies #[trigger] names[i] == stdlib@[i]@ by {}
        if names.contains(module@) {
            let i = choose|i: int| 0 <= i < names.len() && names[i] == module@;
            assert(stdlib@[i]@ == module@);
        }
        assert forall|i: int| 0 <= i < stdlib@.len() && (#[trigger] stdlib@[i])@ == module@ implies
            names.contains(module@) by {
            assert(names[i] == module@);
        }
    }
    if is_one_of(module, &stdlib) {
        return None;
    }
    let cs = chars(module);
    if cs.len() > 0 && cs[0] == ':' {
        let artifact = string(slice_subrange(&cs, 1, cs.len()));
        return resolve_local_artifact(artifact.as_str(), dirs, probe);
    }
    match split_package_artifact(module) {
        Some((pkg, artifact)) => resolve_node_module_artifact(
            pkg.as_str(),
            artifact.as_str(),
            dirs,
            probe,
        ),
        None => None,
    }
}

/// Where the module lies that the file at `current_file` imports.
pub fn resolve_import<F: Fn(&Place) -> bool>(module: &str, current_file: &str, probe: &F) -> (r:
    Option<Place>)
    requires
        answers(*probe),
    ensures
        exists|dirs: Seq<Seq<char>>| #[trigger]
            may_be_ancestors(current_file@, dirs) && found_among(
                *probe,
                dirs,
                module@,
                match r {
                    Some(p) => Some(p@),
                    None => None,
                },
            ),
        stdlib_modules().contains(module@) ==> r is None,
{
    let dirs = ancestors(current_file);
    resolve_among(module, &dirs, probe)
}

} // verus!
