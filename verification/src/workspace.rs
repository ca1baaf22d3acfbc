//! The workspace: which directories are searched, and which files count.

use vstd::prelude::*;
use vstd::string::*;

use crate::resolver::ancestors;
use crate::resolver::answers;
use crate::resolver::find_up_with_child;
use crate::resolver::may_be_ancestors;
use crate::resolver::nearest_with;
use crate::resolver::Place;
use crate::text::chars;
use crate::text::is_one_of;
use crate::text::opt_view;
use crate::text::same_str;
use crate::text::strings;
use crate::text::strip_suffix;

verus! {

/// The most files that one search visits.
pub const MAX_FILES: usize = 10_000;

/// The directories that a search does not go into.
pub open spec fn skipped_dirs() -> Seq<Seq<char>> {
    seq!["node_modules"@, "dist"@, "target"@, ".git"@]
}

/// Whether `name` is the name of a Tengo file: it ends in `.tengo`, with
/// something before.
pub open spec fn is_tengo_name(name: Seq<char>) -> bool {
    ".tengo"@.is_suffix_of(name) && name.len() > ".tengo"@.len()
}

/// What to do with a file.
#[derive(Debug, Clone, Copy, PartialEq, Eq, Structural)]
pub enum Step {
    /// Look into it.
    Visit,
    /// Leave it and go on.
    Skip,
    /// Leave it, and the rest of its directory with it.
    Stop,
}

/// A search through the workspace: the canonical paths of the files that were
/// visited.
#[derive(Debug)]
pub struct Scan {
    seen: Vec<String>,
}

impl View for Scan {
    type V = Seq<Seq<char>>;

    closed spec fn view(&self) -> Seq<Seq<char>> {
        strings(self.seen@)
    }
}

/// What a search that visited the files `seen` does with a file of the given
/// name and canonical path.
pub open spec fn step_at(seen: Seq<Seq<char>>, name: Seq<char>, path: Seq<char>) -> Step {
    if !is_tengo_name(name) || seen.contains(path) {
        Step::Skip
    } else if seen.len() >= MAX_FILES {
        Step::Stop
    } else {
        Step::Visit
    }
}

/// The files that it has visited then.
pub open spec fn seen_after(seen: Seq<Seq<char>>, name: Seq<char>, path: Seq<char>) -> Seq<Seq<char>> {
    if step_at(seen, name, path) == Step::Visit {
        seen.push(path)
    } else {
        seen
    }
}

/// Whether no file was visited twice, and no more than may be.
pub open spec fn bounded(seen: Seq<Seq<char>>) -> bool {
    seen.len() <= MAX_FILES && seen.no_duplicates()
}

/// A search visits no file twice, and no more than it may.
pub proof fn law_search_bounded(seen: Seq<Seq<char>>, name: Seq<char>, path: Seq<char>)
    requires
        bounded(seen),
    ensures
        bounded(seen_after(seen, name, path)),
        step_at(seen, name, path) == Step::Visit ==> is_tengo_name(name) && !seen.contains(path),
{
}

/// Once a search has visited all that it may, it goes into no directory and
/// visits no file any more.
pub proof fn law_full_search_rests(seen: Seq<Seq<char>>, name: Seq<char>, path: Seq<char>)
    requires
        seen.len() >= MAX_FILES,
    ensures
        step_at(seen, name, path) != Step::Visit,
        seen_after(seen, name, path) == seen,
        !entered(seen, name),
{
}

/// Whether a search goes into a directory of the given name.
pub open spec fn entered(seen: Seq<Seq<char>>, name: Seq<char>) -> bool {
    !skipped_dirs().contains(name) && seen.len() < MAX_FILES
}

/// Whether `name` is among `all`.
fn has(all: &Vec<String>, name: &str) -> (r: bool)
    ensures
        r == strings(all@).contains(name@),
{
    let ghost texts = strings(all@);
    let mut i: usize = 0;
    while i < all.len()
        invariant
            i <= all@.len(),
            texts == strings(all@),
            forall|k: int| 0 <= k < i ==> #[trigger] texts[k] != name@,
        decreases all@.len() - i,
    {
        if same_str(all[i].as_str(), name) {
            assert(texts[i as int] == name@);
            return true;
        }
        i += 1;
    }
    false
}

/// Whether `name` is the name of a Tengo file.
pub fn is_tengo_file(name: &str) -> (r: bool)
    ensures
        r == is_tengo_name(name@),
{
    let cs = chars(name);
    match strip_suffix(&cs, ".tengo") {
        Some(rest) => rest.len() > 0,
        None => false,
    }
}

impl Scan {
    /// A search that has not begun.
    pub fn new() -> (r: Scan)
        ensures
            r@ == Seq::<Seq<char>>::empty(),
            bounded(r@),
    {
        let r = Scan { seen: Vec::new() };
        assert(r@ =~= seq![]);
        r
    }

    /// Whether the search has visited all that it may.
    pub fn is_full(&self) -> (r: bool)
        ensures
            r == (self@.len() >= MAX_FILES),
    {
        self.seen.len() >= MAX_FILES
    }

    /// Whether the search goes into a directory of the given name.
    pub fn enters(&self, name: &str) -> (r: bool)
        ensures
            r == entered(self@, name@),
    {
        let skipped = ["node_modules", "dist", "target", ".git"];
        proof {
            let names = skipped_dirs();
            assert forall|i: int| 0 <= i < names.len() implies #[trigger] names[i]
                == skipped@[i]@ by {}
            if names.contains(name@) {
                let i = choose|i: int| 0 <= i < names.len() && names[i] == name@;
                assert(skipped@[i]@ == name@);
            }
            assert forall|i: int|
                0 <= i < skipped@.len() && (#[trigger] skipped@[i])@ == name@ implies names.contains(
                name@,
            ) by {
                assert(names[i] == name@);
            }
        }
        !is_one_of(name, &skipped) && !self.is_full()
    }

    /// What to do with a file of the given name and canonical path.
    pub fn step(&mut self, name: &str, path: &str) -> (r: Step)
        requires
            bounded(old(self)@),
        ensures
            r == step_at(old(self)@, name@, path@),
            final(self)@ == seen_after(old(self)@, name@, path@),
            bounded(final(self)@),
    {
        if !is_tengo_file(name) || has(&self.seen, path) {
            return Step::Skip;
        }
        if self.is_full() {
            return Step::Stop;
        }
        proof {
            law_search_bounded(self@, name@, path@);
        }
        let ghost before = self@;
        self.seen.push(path.to_string());
        assert(self@ =~= before.push(path@));
        Step::Visit
    }
}

/// The directories that are searched: those of the workspace, or else the
/// package of the file, or else the directory that it lies in.
pub open spec fn searched(
    roots: Seq<Seq<char>>,
    package: Option<Seq<char>>,
    parent: Option<Seq<char>>,
) -> Seq<Seq<char>> {
    if roots.len() > 0 {
        roots
    } else {
        match (package, parent) {
            (Some(p), _) => seq![p],
            (None, Some(p)) => seq![p],
            (None, None) => seq![],
        }
    }
}

/// The directories that are searched. `package` is the nearest directory
/// around the file that holds a package, `parent` the one that the file lies
/// in.
pub fn effective_roots(roots: Vec<String>, package: Option<String>, parent: Option<String>) -> (r: Vec<
    String,
>)
    ensures
        strings(r@) == searched(strings(roots@), opt_view(package), opt_view(parent)),
{
    if roots.len() > 0 {
        return roots;
    }
    let one = match (package, parent) {
        (Some(p), _) => p,
        (None, Some(p)) => p,
        (None, None) => {
            assert(strings(roots@) =~= seq![]);
            return roots;
        },
    };
    let ghost text = one@;
    let r = vec![one];
    assert(strings(r@) =~= seq![text]);
    r
}

/// Whether `found` are the directories that are searched for a file whose
/// directory and the directories around it are `dirs`: those of the workspace,
/// or else the nearest of `dirs` that holds a `package.json`, or else the first
/// of them.
pub open spec fn roots_found<F: Fn(&Place) -> bool>(
    probe: F,
    dirs: Seq<Seq<char>>,
    roots: Seq<Seq<char>>,
    found: Seq<Seq<char>>,
) -> bool {
    if roots.len() > 0 {
        found == roots
    } else {
        exists|package: Option<Seq<char>>| #[trigger]
            nearest_with(probe, dirs, "package.json"@, package) && found == searched(
                roots,
                package,
                if dirs.len() > 0 {
                    Some(dirs[0])
                } else {
                    None
                },
            )
    }
}

/// The directories that are searched for a file whose directory and the
/// directories around it are `dirs`.
pub fn roots_among<F: Fn(&Place) -> bool>(dirs: &Vec<String>, roots: Vec<String>, probe: &F) -> (r: Vec<
    String,
>)
    requires
        answers(*probe),
    ensures
        roots_found(*probe, strings(dirs@), strings(roots@), strings(r@)),
{
    if roots.len() > 0 {
        return roots;
    }
    let package = find_up_with_child(dirs, "package.json", probe);
    let ghost near = opt_view(package);
    let parent = if dirs.len() > 0 {
        Some(dirs[0].clone())
    } else {
        None
    };
    assert(nearest_with(*probe, strings(dirs@), "package.json"@, near));
    effective_roots(roots, package, parent)
}

/// The directories that are searched for the file at `file`: those of the
/// workspace, or else the package of the file, or else the directory that it
/// lies in.
pub fn search_roots<F: Fn(&Place) -> bool>(file: &str, roots: Vec<String>, probe: &F) -> (r: Vec<
    String,
>)
    requires
        answers(*probe),
    ensures
        exists|dirs: Seq<Seq<char>>| #[trigger]
            may_be_ancestors(file@, dirs) && roots_found(
                *probe,
                dirs,
                strings(roots@),
                strings(r@),
            ),
{
    let dirs = ancestors(file);
    roots_among(&dirs, roots, probe)
}

/// The paths among `folders`.
pub open spec fn paths_in(folders: Seq<Option<String>>) -> Seq<Seq<char>>
    decreases folders.len(),
{
    if folders.len() == 0 {
        seq![]
    } else {
        match folders.last() {
            Some(p) => paths_in(folders.drop_last()).push(p@),
            None => paths_in(folders.drop_last()),
        }
    }
}

/// The directories of a workspace: those of its folders that are paths, or
/// else its root.
pub open spec fn roots_of(folders: Seq<Option<String>>, root: Option<Seq<char>>) -> Seq<Seq<char>> {
    if paths_in(folders).len() > 0 {
        paths_in(folders)
    } else {
        match root {
            Some(p) => seq![p],
            None => seq![],
        }
    }
}

/// The directories of a workspace. Of each folder, and of the root, there is
/// the path that its address names, where it names one.
pub fn workspace_roots(folders: Vec<Option<String>>, root: Option<String>) -> (r: Vec<String>)
    ensures
        strings(r@) == roots_of(folders@, opt_view(root)),
{
    let mut out: Vec<String> = Vec::new();
    let mut i: usize = 0;
    assert(strings(out@) =~= paths_in(folders@.take(0)));
    while i < folders.len()
        invariant
            i <= folders@.len(),
            strings(out@) == paths_in(folders@.take(i as int)),
        decreases folders@.len() - i,
    {
        assert(folders@.take(i + 1).drop_last() =~= folders@.take(i as int));
        assert(folders@.take(i + 1).last() == folders@[i as int]);
        if let Some(p) = &folders[i] {
            let ghost before = strings(out@);
            out.push(p.clone());
            assert(strings(out@) =~= before.push(p@));
        }
        i += 1;
    }
    assert(folders@.take(folders@.len() as int) =~= folders@);
    if out.len() == 0 {
        if let Some(p) = root {
            out.push(p);
            assert(strings(out@) =~= seq![p@]);
        } else {
            assert(strings(out@) =~= seq![]);
        }
    }
    out
}

/// The text of a file: that of the editor's buffer, where the file is open, or
/// else what `read` gives.
pub fn live_source<F: Fn() -> Option<String>>(buffer: Option<String>, read: &F) -> (r: Option<String>)
    requires
        call_requires(*read, ()),
    ensures
        match buffer {
            Some(text) => r == Some(text),
            None => call_ensures(*read, (), r),
        },
{
    match buffer {
        Some(text) => Some(text),
        None => read(),
    }
}

/// What a search does with a file: one whose name is more than `.tengo` and ends
/// in it is visited and kept in mind, if it was not visited yet and there is room
/// left; with no room left the search of the directory ends there. Any other
/// file is passed over.
pub proof fn law_which_files_are_visited(
    seen: Seq<Seq<char>>,
    stem: Seq<char>,
    name: Seq<char>,
    path: Seq<char>,
)
    ensures
        stem.len() > 0 && !seen.contains(path) ==> step_at(seen, stem + ".tengo"@, path) == (
        if seen.len() < 10000 {
            Step::Visit
        } else {
            Step::Stop
        }),
        stem.len() > 0 && !seen.contains(path) && seen.len() < 10000 ==> seen_after(
            seen,
            stem + ".tengo"@,
            path,
        ) == seen.push(path),
        seen.contains(path) || name.len() <= 6 || name.skip(name.len() - 6) != ".tengo"@ ==> step_at(
            seen,
            name,
            path,
        ) == Step::Skip && seen_after(seen, name, path) == seen,
{
    reveal_strlit(".tengo");
    let whole = stem + ".tengo"@;
    assert(whole.skip(whole.len() - 6) =~= ".tengo"@);
    if ".tengo"@.is_suffix_of(name) {
        assert(name.skip(name.len() - 6) =~= ".tengo"@);
    }
}

/// A search that has room left goes into every directory but four.
pub proof fn law_which_directories_are_entered(seen: Seq<Seq<char>>, name: Seq<char>)
    ensures
        entered(seen, name) <==> seen.len() < 10000 && name != "node_modules"@ && name != "dist"@
            && name != "target"@ && name != ".git"@,
{
    let all = skipped_dirs();
    assert(all[0] == "node_modules"@ && all[1] == "dist"@ && all[2] == "target"@ && all[3]
        == ".git"@);
    if all.contains(name) {
        let k = choose|k: int| 0 <= k < all.len() && all[k] == name;
        assert(k == 0 || k == 1 || k == 2 || k == 3);
    }
}

/// The directories of a workspace are all the folders that are paths, in their
/// order; only where there are none is it the root.
pub proof fn law_workspace_roots(folders: Seq<Option<String>>, root: Option<Seq<char>>)
    ensures
        ({
            let paths = folders.filter(|f: Option<String>| f is Some).map_values(
                |f: Option<String>| f->0@,
            );
            roots_of(folders, root) == (if paths.len() > 0 {
                paths
            } else {
                match root {
                    Some(p) => seq![p],
                    None => seq![],
                }
            })
        }),
{
    lemma_paths_in(folders);
}

proof fn lemma_paths_in(folders: Seq<Option<String>>)
    ensures
        paths_in(folders) == folders.filter(|f: Option<String>| f is Some).map_values(
            |f: Option<String>| f->0@,
        ),
    decreases folders.len(),
{
    reveal(Seq::filter);
    let keep = |f: Option<String>| f is Some;
    let path = |f: Option<String>| f->0@;
    if folders.len() > 0 {
        let front = folders.drop_last();
        lemma_paths_in(front);
        let rest = front.filter(keep);
        if folders.last() is Some {
            assert(rest.push(folders.last()).map_values(path) =~= rest.map_values(path).push(
                path(folders.last()),
            ));
        }
    }
    assert(paths_in(folders) =~= folders.filter(keep).map_values(path));
}

} // verus!
