//! Which entries of a directory are processed.
//!
//! A directory that carries usable ignore rules is processed through the
//! listing that those rules yield for the whole subtree. Any other directory
//! is processed child by child, without the build output or dependency
//! directory that its project markers point to.

use vstd::prelude::*;
use crate::paths::{join, joined};

verus! {

/// The texts that a sequence of strings holds, in order.
pub open spec fn texts(items: Seq<String>) -> Seq<Seq<char>> {
    Seq::new(items.len(), |i: int| items[i]@)
}

/// Name of the file that holds a directory's ignore rules.
pub open spec fn ignore_file_name() -> Seq<char> {
    ".gitignore"@
}

/// Name of the manifest file that marks a project with a build directory.
pub open spec fn manifest_name() -> Seq<char> {
    "cargo.toml"@
}

/// Name of the build directory that is left out beside a manifest.
pub open spec fn build_dir_name() -> Seq<char> {
    "target"@
}

/// Name of the dependency directory, which marks its project and is itself
/// left out.
pub open spec fn dependency_dir_name() -> Seq<char> {
    "node_modules"@
}

/// What was found of a directory's project markers.
#[derive(Clone, Copy, Debug, PartialEq, Eq, Structural)]
pub struct Markers {
    /// The manifest path names a regular file.
    pub manifest: bool,
    /// The dependency path names a directory.
    pub dependencies: bool,
}

/// What was found of a directory's ignore rules.
#[derive(Debug)]
pub enum IgnoreProbe {
    /// The directory holds no ignore-rule file.
    Missing,
    /// The directory holds one that could not be used.
    Malformed,
    /// Every path below the directory that the rules do not exclude.
    Listing(Vec<String>),
}

/// `IgnoreProbe` over texts.
pub enum ProbeView {
    Missing,
    Malformed,
    Listing(Seq<Seq<char>>),
}

impl View for IgnoreProbe {
    type V = ProbeView;

    open spec fn view(&self) -> ProbeView {
        match self {
            IgnoreProbe::Missing => ProbeView::Missing,
            IgnoreProbe::Malformed => ProbeView::Malformed,
            IgnoreProbe::Listing(paths) => ProbeView::Listing(texts(paths@)),
        }
    }
}

/// Everything that was looked up about one directory. Where `ignore` is a
/// listing, `markers` and `children` are not read.
#[derive(Debug)]
pub struct Observation {
    pub ignore: IgnoreProbe,
    pub markers: Markers,
    /// The paths of the directory's immediate children.
    pub children: Vec<String>,
}

/// `Observation` over texts.
pub struct ObservationView {
    pub ignore: ProbeView,
    pub markers: Markers,
    pub children: Seq<Seq<char>>,
}

impl View for Observation {
    type V = ObservationView;

    open spec fn view(&self) -> ObservationView {
        ObservationView {
            ignore: self.ignore@,
            markers: self.markers,
            children: texts(self.children@),
        }
    }
}

/// A directory together with the entries to process in it. With
/// `transitive` set the entries already cover the whole subtree, so that no
/// directory among them is entered.
#[derive(Debug)]
pub struct DirectoryTask {
    pub directory: String,
    pub entries: Vec<String>,
    pub transitive: bool,
}

/// `DirectoryTask` over texts.
pub struct TaskView {
    pub directory: Seq<char>,
    pub entries: Seq<Seq<char>>,
    pub transitive: bool,
}

impl View for DirectoryTask {
    type V = TaskView;

    open spec fn view(&self) -> TaskView {
        TaskView {
            directory: self.directory@,
            entries: texts(self.entries@),
            transitive: self.transitive,
        }
    }
}

/// The child paths that the markers of `dir` exclude, one for each marker
/// found: the build directory beside a manifest, and the dependency
/// directory where there is one.
pub open spec fn exclusions(dir: Seq<char>, markers: Markers) -> Seq<Seq<char>> {
    (if markers.manifest {
        seq![joined(dir, build_dir_name())]
    } else {
        Seq::empty()
    }) + (if markers.dependencies {
        seq![joined(dir, dependency_dir_name())]
    } else {
        Seq::empty()
    })
}

/// The test that keeps a path unless `excluded` holds exactly that path.
pub open spec fn is_kept(excluded: Seq<Seq<char>>) -> spec_fn(Seq<char>) -> bool {
    |path: Seq<char>| !excluded.contains(path)
}

/// `children` without the paths in `excluded`, in the same order.
pub open spec fn retained(children: Seq<Seq<char>>, excluded: Seq<Seq<char>>) -> Seq<Seq<char>> {
    children.filter(is_kept(excluded))
}

/// Whether the children of a directory have to be enumerated: they do unless
/// its ignore rules gave a listing.
pub open spec fn enumerates(ignore: ProbeView) -> bool {
    !(ignore is Listing)
}

/// The entries to process in `dir`, given what was observed of it.
pub open spec fn resolved(dir: Seq<char>, seen: ObservationView) -> TaskView {
    match seen.ignore {
        ProbeView::Listing(paths) => TaskView { directory: dir, entries: paths, transitive: true },
        _ => TaskView {
            directory: dir,
            entries: retained(seen.children, exclusions(dir, seen.markers)),
            transitive: false,
        },
    }
}

/// The path at which a directory keeps its ignore rules.
pub fn ignore_file_path(dir: &str) -> (path: String)
    ensures
        path@ == joined(dir@, ignore_file_name()),
{
    join(dir, ".gitignore")
}

/// The path whose being a regular file sets `Markers::manifest`.
pub fn manifest_path(dir: &str) -> (path: String)
    ensures
        path@ == joined(dir@, manifest_name()),
{
    join(dir, "cargo.toml")
}

/// The path whose being a directory sets `Markers::dependencies`.
pub fn dependency_dir_path(dir: &str) -> (path: String)
    ensures
        path@ == joined(dir@, dependency_dir_name()),
{
    join(dir, "node_modules")
}

/// Tells whether markers and children are still to be looked up once the
/// ignore rules have been probed.
pub fn needs_enumeration(ignore: &IgnoreProbe) -> (needed: bool)
    ensures
        needed == enumerates(ignore@),
{
    match ignore {
        IgnoreProbe::Listing(_) => false,
        _ => true,
    }
}

/// Builds the list of child paths that the markers of `dir` exclude.
pub fn inferred_exclusions(dir: &str, markers: Markers) -> (excluded: Vec<String>)
    ensures
        texts(excluded@) == exclusions(dir@, markers),
{
    let mut excluded: Vec<String> = Vec::new();
    if markers.manifest {
        excluded.push(join(dir, "target"));
    }
    if markers.dependencies {
        excluded.push(join(dir, "node_modules"));
    }
    assert(texts(excluded@) =~= exclusions(dir@, markers));
    excluded
}

/// Whether `list` holds exactly `path`.
pub fn is_listed(path: &String, list: &Vec<String>) -> (found: bool)
    ensures
        found == texts(list@).contains(path@),
{
    let mut i: usize = 0;
    while i < list.len()
        invariant
            i <= list.len(),
            forall|k: int| 0 <= k < i ==> texts(list@)[k] != path@,
        decreases list.len() - i,
    {
        if list[i] == *path {
            assert(texts(list@)[i as int] == path@);
            return true;
        }
        i = i + 1;
    }
    false
}

/// Keeps the children that `excluded` does not hold, in their order.
pub fn retain_included(children: Vec<String>, excluded: &Vec<String>) -> (kept: Vec<String>)
    ensures
        texts(kept@) == retained(texts(children@), texts(excluded@)),
{
    let ghost all = texts(children@);
    let ghost keep = is_kept(texts(excluded@));
    let mut kept: Vec<String> = Vec::new();
    let mut i: usize = 0;
    proof {
        reveal(Seq::filter);
        assert(all.take(0).filter(keep) =~= texts(kept@));
    }
    while i < children.len()
        invariant
            i <= children.len(),
            all == texts(children@),
            keep == is_kept(texts(excluded@)),
            texts(kept@) == all.take(i as int).filter(keep),
        decreases children.len() - i,
    {
        let listed = is_listed(&children[i], excluded);
        proof {
            assert(all.take(i + 1) =~= all.take(i as int).push(all[i as int]));
            all.take(i as int).lemma_filter_push(all[i as int], keep);
        }
        if !listed {
            let ghost before = texts(kept@);
            kept.push(children[i].clone());
            assert(texts(kept@) =~= before.push(all[i as int]));
        }
        i = i + 1;
    }
    assert(all.take(i as int) =~= all);
    kept
}

/// Decides which entries of `directory` are processed: the listing of its
/// ignore rules where there is one, covering the whole subtree; its children
/// without the inferred exclusions otherwise. Unusable ignore rules count as
/// none.
pub fn resolve(directory: String, seen: Observation) -> (task: DirectoryTask)
    ensures
        task@ == resolved(directory@, seen@),
{
    match seen.ignore {
        IgnoreProbe::Listing(paths) => DirectoryTask {
            directory,
            entries: paths,
            transitive: true,
        },
        _ => {
            let excluded = inferred_exclusions(directory.as_str(), seen.markers);
            let entries = retain_included(seen.children, &excluded);
            DirectoryTask { directory, entries, transitive: false }
        },
    }
}

} // verus!
