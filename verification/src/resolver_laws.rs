//! Where modules are found, said of what is on disk.

use vstd::prelude::*;
use vstd::string::*;

use crate::resolver::artifact_places;
use crate::resolver::candidates;
use crate::resolver::dots_to_slashes;
use crate::resolver::first_there;
use crate::resolver::found_among;
use crate::resolver::found_in_package;
use crate::resolver::found_locally;
use crate::resolver::in_each;
use crate::resolver::lacks;
use crate::resolver::last_of;
use crate::resolver::law_dots_part_directories;
use crate::resolver::nearest_with;
use crate::resolver::none_there;
use crate::resolver::package_artifact;
use crate::resolver::package_dir;
use crate::resolver::path_of_uri;
use crate::resolver::said;
use crate::resolver::stdlib_modules;
use crate::resolver::Place;
use crate::resolver::PlaceView;
use crate::text::position_of;
use crate::workspace::roots_found;
use crate::workspace::searched;

verus! {

/// Whether `probe` says of every place what `there` does.
pub open spec fn tells<F: Fn(&Place) -> bool>(
    probe: F,
    there: spec_fn(PlaceView) -> bool,
) -> bool {
    forall|p: &Place, b: bool| #[trigger] call_ensures(probe, (p,), b) ==> b == there(p@)
}

proof fn lemma_said<F: Fn(&Place) -> bool>(probe: F, there: spec_fn(PlaceView) -> bool)
    requires
        tells(probe, there),
    ensures
        forall|p: PlaceView, b: bool| #[trigger] said(probe, p, b) ==> b == there(p),
{
    assert forall|p: PlaceView, b: bool| #[trigger] said(probe, p, b) implies b == there(p) by {
        let x = choose|x: &Place| x@ == p && #[trigger] call_ensures(probe, (x,), b);
    }
}

proof fn lemma_last_of(s: Seq<char>, c: char)
    ensures
        match last_of(s, c) {
            Some(i) => 0 <= i < s.len() && s[i] == c && (forall|k: int|
                i < k < s.len() ==> #[trigger] s[k] != c),
            None => forall|k: int| 0 <= k < s.len() ==> #[trigger] s[k] != c,
        },
    decreases s.len(),
{
    if s.len() > 0 && s.last() != c {
        lemma_last_of(s.drop_last(), c);
        let t = s.drop_last();
        assert forall|k: int| 0 <= k < t.len() implies #[trigger] s[k] == t[k] by {}
    }
}

/// The name of a package and that of an artifact in it are parted by the last
/// colon of the module's name.
pub proof fn law_package_and_artifact(pkg: Seq<char>, artifact: Seq<char>)
    requires
        pkg.len() > 0,
        artifact.len() > 0,
        !artifact.contains(':'),
    ensures
        package_artifact(pkg + ":"@ + artifact) == Some((pkg, artifact)),
{
    reveal_strlit(":");
    let s = pkg + ":"@ + artifact;
    lemma_last_of(s, ':');
    assert(s[pkg.len() as int] == ':');
    let i = last_of(s, ':')->0;
    if i > pkg.len() {
        assert(s[i] == artifact[i - pkg.len() - 1]);
    }
    assert(s.take(i) =~= pkg);
    assert(s.skip(i + 1) =~= artifact);
}

/// A name without a colon is that of no package, and neither part is empty.
pub proof fn law_no_package(module: Seq<char>)
    requires
        !module.contains(':') || module.last() == ':' || (module[0] == ':' && !module.skip(1).contains(
            ':',
        )),
    ensures
        package_artifact(module) is None,
{
    lemma_last_of(module, ':');
    if let Some(i) = last_of(module, ':') {
        assert(module.contains(module[i]));
        if i > 0 && module.last() != ':' {
            assert(module.skip(1)[i - 1] == ':');
        }
    }
}

/// The places of an artifact below the directory of its package: first in the
/// sources, where dots part directories, as a library, a template, a plain file,
/// software and an asset, and then as the index of a directory; then as it is
/// published.
pub open spec fn layout(artifact: Seq<char>, c: int) -> Seq<Seq<char>> {
    let id = dots_to_slashes(artifact);
    if c == 0 {
        seq!["src"@, id + ".lib.tengo"@]
    } else if c == 1 {
        seq!["src"@, id + ".tpl.tengo"@]
    } else if c == 2 {
        seq!["src"@, id + ".tengo"@]
    } else if c == 3 {
        seq!["src"@, id + ".sw.json"@]
    } else if c == 4 {
        seq!["src"@, id + ".as.json"@]
    } else if c == 5 {
        seq!["src"@, id, "index.lib.tengo"@]
    } else if c == 6 {
        seq!["src"@, id, "index.tpl.tengo"@]
    } else if c == 7 {
        seq!["src"@, id, "index.tengo"@]
    } else if c == 8 {
        seq!["dist"@, "tengo"@, "lib"@, artifact + ".lib.tengo"@]
    } else if c == 9 {
        seq!["dist"@, "tengo"@, "software"@, artifact + ".sw.json"@]
    } else {
        seq!["dist"@, "tengo"@, "asset"@, artifact + ".as.json"@]
    }
}

/// How many places that are.
pub open spec fn layouts() -> int {
    11
}

/// Place `c` of an artifact in the package at `root`.
pub open spec fn laid_at(root: PlaceView, artifact: Seq<char>, c: int) -> PlaceView {
    PlaceView { dir: root.dir, parts: root.parts + layout(artifact, c) }
}

proof fn lemma_layouts(root: PlaceView, artifact: Seq<char>)
    ensures
        artifact_places(root, artifact).len() == layouts(),
        forall|c: int|
            0 <= c < layouts() ==> #[trigger] artifact_places(root, artifact)[c] == laid_at(
                root,
                artifact,
                c,
            ),
{
    law_dots_part_directories(artifact);
    let all = candidates(artifact);
    assert forall|c: int| 0 <= c < layouts() implies #[trigger] artifact_places(root, artifact)[c]
        == laid_at(root, artifact, c) by {
        assert(all[c] == layout(artifact, c));
    }
}

/// Whether `found` is the first of the places of an artifact in the package at
/// `root` where something is.
pub open spec fn first_laid(
    there: spec_fn(PlaceView) -> bool,
    root: PlaceView,
    artifact: Seq<char>,
    found: Option<PlaceView>,
) -> bool {
    match found {
        Some(p) => exists|c: int|
            0 <= c < layouts() && p == #[trigger] laid_at(root, artifact, c) && there(p) && (forall|b: int|
                0 <= b < c ==> !there(#[trigger] laid_at(root, artifact, b))),
        None => forall|b: int| 0 <= b < layouts() ==> !there(#[trigger] laid_at(root, artifact, b)),
    }
}

proof fn lemma_first_laid<F: Fn(&Place) -> bool>(
    probe: F,
    there: spec_fn(PlaceView) -> bool,
    root: PlaceView,
    artifact: Seq<char>,
    found: Option<PlaceView>,
)
    requires
        tells(probe, there),
        first_there(probe, artifact_places(root, artifact), found),
    ensures
        first_laid(there, root, artifact, found),
{
    lemma_said(probe, there);
    lemma_layouts(root, artifact);
    let places = artifact_places(root, artifact);
    match found {
        Some(p) => {
            let c = choose|c: int|
                0 <= c < places.len() && #[trigger] places[c] == p && said(probe, p, true)
                    && none_there(probe, places, c);
            assert forall|b: int| 0 <= b < c implies !there(
                #[trigger] laid_at(root, artifact, b),
            ) by {
                assert(said(probe, places[b], false));
            }
            assert(p == laid_at(root, artifact, c));
        },
        None => {
            assert forall|b: int| 0 <= b < layouts() implies !there(
                #[trigger] laid_at(root, artifact, b),
            ) by {
                assert(said(probe, places[b], false));
            }
        },
    }
}

/// Whether the module's name is one of the standard library.
pub open spec fn in_stdlib(module: Seq<char>) -> bool {
    ||| module == "base64"@
    ||| module == "enum"@
    ||| module == "fmt"@
    ||| module == "hex"@
    ||| module == "json"@
    ||| module == "math"@
    ||| module == "os"@
    ||| module == "rand"@
    ||| module == "text"@
    ||| module == "times"@
}

proof fn lemma_stdlib(module: Seq<char>)
    ensures
        stdlib_modules().contains(module) <==> in_stdlib(module),
{
    let all = stdlib_modules();
    assert(all[0] == "base64"@ && all[1] == "enum"@ && all[2] == "fmt"@ && all[3] == "hex"@
        && all[4] == "json"@ && all[5] == "math"@ && all[6] == "os"@ && all[7] == "rand"@ && all[8]
        == "text"@ && all[9] == "times"@);
    if all.contains(module) {
        let k = choose|k: int| 0 <= k < all.len() && all[k] == module;
        assert(k == 0 || k == 1 || k == 2 || k == 3 || k == 4 || k == 5 || k == 6 || k == 7 || k
            == 8 || k == 9);
    }
}

proof fn lemma_no_colon_in_stdlib(module: Seq<char>)
    requires
        module.contains(':'),
    ensures
        !in_stdlib(module),
{
    reveal_strlit("base64");
    reveal_strlit("enum");
    reveal_strlit("fmt");
    reveal_strlit("hex");
    reveal_strlit("json");
    reveal_strlit("math");
    reveal_strlit("os");
    reveal_strlit("rand");
    reveal_strlit("text");
    reveal_strlit("times");
    let k = choose|k: int| 0 <= k < module.len() && module[k] == ':';
    assert(in_stdlib(module) ==> k == 0 || k == 1 || k == 2 || k == 3 || k == 4 || k == 5);
}

/// The directory of a package below `dir`.
pub open spec fn installed(dir: Seq<char>, pkg: Seq<char>) -> PlaceView {
    PlaceView { dir, parts: seq!["node_modules"@, pkg] }
}

/// Whether the package below `dir` is there and holds the artifact.
pub open spec fn provides(
    there: spec_fn(PlaceView) -> bool,
    dir: Seq<char>,
    pkg: Seq<char>,
    artifact: Seq<char>,
) -> bool {
    there(installed(dir, pkg)) && exists|c: int|
        0 <= c < layouts() && there(#[trigger] laid_at(installed(dir, pkg), artifact, c))
}

/// A module of a package is found if and only if the package is there below one
/// of the directories and holds the artifact: in the nearest such directory, at
/// the first place where something is.
pub proof fn law_package_modules<F: Fn(&Place) -> bool>(
    probe: F,
    there: spec_fn(PlaceView) -> bool,
    dirs: Seq<Seq<char>>,
    pkg: Seq<char>,
    artifact: Seq<char>,
    found: Option<PlaceView>,
)
    requires
        tells(probe, there),
        pkg.len() > 0,
        pkg[0] != ':',
        artifact.len() > 0,
        !artifact.contains(':'),
        found_among(probe, dirs, pkg + ":"@ + artifact, found),
    ensures
        found is None <==> forall|j: int|
            0 <= j < dirs.len() ==> !provides(there, #[trigger] dirs[j], pkg, artifact),
        found is Some ==> exists|k: int|
            0 <= k < dirs.len() && provides(there, #[trigger] dirs[k], pkg, artifact) && (forall|
                j: int,
            |
                0 <= j < k ==> !provides(there, #[trigger] dirs[j], pkg, artifact)) && first_laid(
                there,
                installed(dirs[k], pkg),
                artifact,
                found,
            ),
{
    reveal_strlit(":");
    let module = pkg + ":"@ + artifact;
    assert(module[pkg.len() as int] == ':');
    assert(module[0] == pkg[0]);
    lemma_stdlib(module);
    lemma_no_colon_in_stdlib(module);
    law_package_and_artifact(pkg, artifact);
    lemma_said(probe, there);
    assert(found_in_package(probe, dirs, pkg, artifact, found));
    assert forall|j: int|
        0 <= j < dirs.len() && lacks(probe, #[trigger] dirs[j], pkg, artifact) implies !provides(
        there,
        dirs[j],
        pkg,
        artifact,
    ) by {
        let root = package_dir(dirs[j], pkg);
        if said(probe, root, true) && first_there(probe, artifact_places(root, artifact), None) {
            lemma_first_laid(probe, there, root, artifact, None);
        }
    }
    match found {
        Some(p) => {
            let k = choose|k: int|
                #![trigger dirs[k]]
                0 <= k < dirs.len() && said(probe, package_dir(dirs[k], pkg), true) && first_there(
                    probe,
                    artifact_places(package_dir(dirs[k], pkg), artifact),
                    found,
                ) && (forall|j: int| 0 <= j < k ==> lacks(probe, #[trigger] dirs[j], pkg, artifact));
            lemma_first_laid(probe, there, package_dir(dirs[k], pkg), artifact, found);
            let c = choose|c: int|
                0 <= c < layouts() && p == #[trigger] laid_at(
                    installed(dirs[k], pkg),
                    artifact,
                    c,
                ) && there(p);
            assert(there(laid_at(installed(dirs[k], pkg), artifact, c)));
            assert(provides(there, dirs[k], pkg, artifact));
        },
        None => {},
    }
}

/// Where the list of a directory's packages lies.
pub open spec fn package_file(dir: Seq<char>) -> PlaceView {
    PlaceView { dir, parts: seq!["package.json"@] }
}

proof fn lemma_nearest<F: Fn(&Place) -> bool>(
    probe: F,
    there: spec_fn(PlaceView) -> bool,
    dirs: Seq<Seq<char>>,
    found: Option<Seq<char>>,
)
    requires
        tells(probe, there),
        nearest_with(probe, dirs, "package.json"@, found),
    ensures
        match found {
            Some(d) => exists|k: int| #[trigger] nearest_package(there, dirs, k) && dirs[k] == d,
            None => forall|j: int| 0 <= j < dirs.len() ==> !there(package_file(#[trigger] dirs[j])),
        },
{
    lemma_said(probe, there);
    let places = in_each(dirs, "package.json"@);
    assert forall|j: int| 0 <= j < dirs.len() implies #[trigger] places[j] == package_file(
        dirs[j],
    ) by {}
    match found {
        Some(d) => {
            let p = package_file(d);
            let k = choose|k: int|
                0 <= k < places.len() && #[trigger] places[k] == p && said(probe, p, true)
                    && none_there(probe, places, k);
            assert forall|j: int| 0 <= j < k implies !there(package_file(#[trigger] dirs[j])) by {
                assert(said(probe, places[j], false));
            }
            assert(dirs[k] == d);
            assert(nearest_package(there, dirs, k));
        },
        None => {
            assert forall|j: int| 0 <= j < dirs.len() implies !there(
                package_file(#[trigger] dirs[j]),
            ) by {
                assert(said(probe, places[j], false));
            }
        },
    }
}

/// Whether directory `k` is the first with a `package.json`.
pub open spec fn nearest_package(
    there: spec_fn(PlaceView) -> bool,
    dirs: Seq<Seq<char>>,
    k: int,
) -> bool {
    &&& 0 <= k < dirs.len()
    &&& there(package_file(dirs[k]))
    &&& forall|j: int| 0 <= j < k ==> !there(package_file(#[trigger] dirs[j]))
}

/// A module of the own package, written with a colon before it, is found at the
/// first place below the nearest directory with a `package.json` where something
/// is, and in no directory further out.
pub proof fn law_own_modules<F: Fn(&Place) -> bool>(
    probe: F,
    there: spec_fn(PlaceView) -> bool,
    dirs: Seq<Seq<char>>,
    artifact: Seq<char>,
    found: Option<PlaceView>,
)
    requires
        tells(probe, there),
        found_among(probe, dirs, ":"@ + artifact, found),
    ensures
        forall|k: int| #[trigger]
            nearest_package(there, dirs, k) ==> first_laid(
                there,
                PlaceView { dir: dirs[k], parts: seq![] },
                artifact,
                found,
            ),
        (forall|j: int| 0 <= j < dirs.len() ==> !there(package_file(#[trigger] dirs[j]))) ==> found is None,
{
    reveal_strlit(":");
    let module = ":"@ + artifact;
    assert(module[0] == ':');
    lemma_stdlib(module);
    lemma_no_colon_in_stdlib(module);
    assert(module.skip(1) =~= artifact);
    assert(found_locally(probe, dirs, artifact, found));
    if nearest_with(probe, dirs, "package.json"@, None) && found is None {
        lemma_nearest(probe, there, dirs, None);
        assert forall|k: int| #[trigger] nearest_package(there, dirs, k) implies first_laid(
            there,
            PlaceView { dir: dirs[k], parts: seq![] },
            artifact,
            found,
        ) by {
            assert(there(package_file(dirs[k])));
        }
    } else {
        let root = choose|root: Seq<char>| #[trigger]
            nearest_with(probe, dirs, "package.json"@, Some(root)) && first_there(
                probe,
                artifact_places(PlaceView { dir: root, parts: seq![] }, artifact),
                found,
            );
        lemma_nearest(probe, there, dirs, Some(root));
        let h = choose|h: int| #[trigger] nearest_package(there, dirs, h) && dirs[h] == root;
        lemma_first_laid(probe, there, PlaceView { dir: root, parts: seq![] }, artifact, found);
        assert forall|k: int| #[trigger] nearest_package(there, dirs, k) implies first_laid(
            there,
            PlaceView { dir: dirs[k], parts: seq![] },
            artifact,
            found,
        ) by {
            if k < h {
                assert(!there(package_file(dirs[k])));
            } else if h < k {
                assert(!there(package_file(dirs[h])));
            }
        }
    }
}

/// A module of the standard library, and a name that is neither that of the own
/// package nor of another, is found nowhere.
pub proof fn law_modules_without_files<F: Fn(&Place) -> bool>(
    probe: F,
    dirs: Seq<Seq<char>>,
    module: Seq<char>,
    found: Option<PlaceView>,
)
    requires
        in_stdlib(module) || !module.contains(':'),
        found_among(probe, dirs, module, found),
    ensures
        found is None,
{
    lemma_stdlib(module);
    if !module.contains(':') {
        law_no_package(module);
        if module.len() > 0 {
            assert(module.contains(module[0]));
        }
    }
}

/// The directories of the workspace are searched; where there are none, the
/// nearest directory with a `package.json`, and without one the file's own.
pub proof fn law_searched_roots<F: Fn(&Place) -> bool>(
    probe: F,
    there: spec_fn(PlaceView) -> bool,
    dirs: Seq<Seq<char>>,
    roots: Seq<Seq<char>>,
    found: Seq<Seq<char>>,
)
    requires
        tells(probe, there),
        roots_found(probe, dirs, roots, found),
    ensures
        roots.len() > 0 ==> found == roots,
        roots.len() == 0 ==> (forall|k: int| #[trigger]
            nearest_package(there, dirs, k) ==> found == seq![dirs[k]]),
        roots.len() == 0 && (forall|j: int|
            0 <= j < dirs.len() ==> !there(package_file(#[trigger] dirs[j]))) ==> found == (
        if dirs.len() > 0 {
            seq![dirs[0]]
        } else {
            seq![]
        }),
{
    if roots.len() == 0 {
        let package = choose|package: Option<Seq<char>>| #[trigger]
            nearest_with(probe, dirs, "package.json"@, package) && found
                == searched(
                roots,
                package,
                if dirs.len() > 0 {
                    Some(dirs[0])
                } else {
                    None
                },
            );
        lemma_nearest(probe, there, dirs, package);
        match package {
            Some(d) => {
                let h = choose|h: int| #[trigger] nearest_package(there, dirs, h) && dirs[h] == d;
                assert forall|k: int| #[trigger] nearest_package(there, dirs, k) implies found
                    == seq![dirs[k]] by {
                    if k < h {
                        assert(!there(package_file(dirs[k])));
                    } else if h < k {
                        assert(!there(package_file(dirs[h])));
                    }
                }
            },
            None => {
                assert forall|k: int| #[trigger] nearest_package(there, dirs, k) implies found
                    == seq![dirs[k]] by {
                    assert(there(package_file(dirs[k])));
                }
            },
        }
    }
}

/// Only the address of a file names a path: what stands behind `file://`, as it
/// stands there where no `%20` is in it.
pub proof fn law_paths_of_addresses(rest: Seq<char>, uri: Seq<char>)
    ensures
        !"file://"@.is_prefix_of(uri) ==> path_of_uri(uri) is None,
        position_of(rest, "%20"@) is None ==> path_of_uri("file://"@ + rest) == Some(rest),
{
    let all = "file://"@ + rest;
    assert(all.take("file://"@.len() as int) =~= "file://"@);
    assert(all.skip("file://"@.len() as int) =~= rest);
}

} // verus!
