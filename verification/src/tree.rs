//! A directory tree as a walk sees it, and a walk over it step by step.
//!
//! A `Tree` says, for every path, what looking it up yields. `walked` is the
//! list of files that a piece of work leads to. A walk over a tree is a
//! sequence of steps; each step picks one piece of waiting work, whichever,
//! and takes in what the tree answers, just as `Traversal::next_batch`,
//! `Traversal::entered` and `Traversal::visited` do for a caller that looks
//! the work up in a file system and answers each piece that was handed out.
//! What holds of all such walks is proved in `laws`.

use vstd::prelude::*;
use vstd::seq_lib::*;
use crate::exclusion::{resolved, ProbeView, ObservationView};
use crate::paths::{is_below, is_child, relative_part};
use crate::sink::EntryView;
use crate::traversal::{
    after_entered, after_visited, entry_for, visits, EnteredView, TraversalView, VisitedView,
    WorkView,
};

verus! {

/// What the file system holds, as far as a walk can tell.
pub struct Tree {
    /// The regular files, each with its bytes.
    pub files: Map<Seq<char>, Seq<u8>>,
    /// The directories, each with what observing it yields.
    pub directories: Map<Seq<char>, ObservationView>,
    /// For each directory, the height of the tree below it.
    pub heights: Map<Seq<char>, nat>,
}

/// What was found when a piece of work was looked up.
pub enum Answer {
    Entered(EnteredView),
    Visited(VisitedView),
}

/// One step of a walk: the waiting work at `pick` is looked up and yields
/// `answer`; `written` tells whether the archive took the entry, where the
/// step makes one.
pub struct Move {
    pub pick: int,
    pub answer: Answer,
    pub written: bool,
}

impl Tree {
    /// Whether `path` names a regular file.
    pub open spec fn is_file(self, path: Seq<char>) -> bool {
        self.files.dom().contains(path)
    }

    /// Whether `path` names a directory.
    pub open spec fn is_directory(self, path: Seq<char>) -> bool {
        self.directories.dom().contains(path)
    }

    /// The visits that entering the directory `dir` leads to.
    pub open spec fn visits_of(self, dir: Seq<char>) -> Seq<WorkView> {
        visits(resolved(dir, self.directories[dir]))
    }

    /// How deep the walk can still go from `work`: nothing for a file and for
    /// an entry of a transitive listing, the height below it and one more
    /// for a directory.
    pub open spec fn weight(self, work: WorkView) -> nat {
        match work {
            WorkView::Enter { directory } => {
                if self.is_directory(directory) {
                    self.heights[directory] + 1
                } else {
                    0
                }
            },
            WorkView::Visit { path, transitive } => {
                if !transitive && !self.is_file(path) && self.is_directory(path) {
                    self.heights[path] + 1
                } else {
                    0
                }
            },
        }
    }

    /// Every directory is higher than the directories that are entered from
    /// it.
    pub open spec fn wf(self) -> bool {
        forall|dir: Seq<char>, i: int|
            self.is_directory(dir) && 0 <= i < self.visits_of(dir).len() ==> self.weight(
                #[trigger] self.visits_of(dir)[i],
            ) < self.weight(WorkView::Enter { directory: dir })
    }

    /// The entry that archives the file at `path` in a walk over `root`.
    pub open spec fn entry_at(self, root: Seq<char>, path: Seq<char>) -> EntryView {
        entry_for(relative_part(root, path).unwrap(), self.files[path])
    }

    /// The entries that archive the files at `paths`, in order.
    pub open spec fn entries_at(self, root: Seq<char>, paths: Seq<Seq<char>>) -> Seq<EntryView> {
        Seq::new(paths.len(), |i: int| self.entry_at(root, paths[i]))
    }

    /// The files that `work` leads to, in the order of a walk that goes
    /// depth first. A visit leads to the file it names, or into the
    /// directory it names, unless a transitive listing covers that. Entering
    /// a directory leads wherever the visits of its entries lead.
    pub open spec fn walked(self, work: WorkView) -> Seq<Seq<char>>
        decreases self.weight(work), (if work is Visit { 2nat } else { 1nat }), 0nat,
    {
        match work {
            WorkView::Enter { directory } => {
                if self.is_directory(directory) {
                    self.walked_within(self.weight(work), self.visits_of(directory))
                } else {
                    Seq::empty()
                }
            },
            WorkView::Visit { path, transitive } => {
                if self.is_file(path) {
                    seq![path]
                } else if !transitive && self.is_directory(path) {
                    self.walked(WorkView::Enter { directory: path })
                } else {
                    Seq::empty()
                }
            },
        }
    }

    /// The files that the pieces of `works` of weight under `bound` lead to,
    /// one piece after the other.
    pub open spec fn walked_within(self, bound: nat, works: Seq<WorkView>) -> Seq<Seq<char>>
        decreases bound, 0nat, works.len(),
    {
        if works.len() == 0 {
            Seq::empty()
        } else {
            self.walked_within(bound, works.drop_last()) + (if self.weight(works.last()) < bound {
                self.walked(works.last())
            } else {
                Seq::empty()
            })
        }
    }

    /// The files that the pieces of `works` lead to, one piece after the
    /// other.
    pub open spec fn walked_all(self, works: Seq<WorkView>) -> Seq<Seq<char>>
        decreases works.len(),
    {
        if works.len() == 0 {
            Seq::empty()
        } else {
            self.walked_all(works.drop_last()) + self.walked(works.last())
        }
    }

    /// Whether the directory `dir` is observed as a file system shows one:
    /// its children are immediate children of it, each named once, and a
    /// listing holds paths below it, each once.
    pub open spec fn proper_at(self, dir: Seq<char>) -> bool {
        let seen = self.directories[dir];
        &&& seen.children.no_duplicates()
        &&& forall|i: int|
            0 <= i < seen.children.len() ==> is_child(dir, #[trigger] seen.children[i])
        &&& match seen.ignore {
            ProbeView::Listing(paths) => {
                &&& paths.no_duplicates()
                &&& forall|i: int| 0 <= i < paths.len() ==> is_below(dir, #[trigger] paths[i])
            },
            _ => true,
        }
    }

    /// Whether every directory is observed as a file system shows one.
    pub open spec fn proper(self) -> bool {
        forall|dir: Seq<char>| self.is_directory(dir) ==> #[trigger] self.proper_at(dir)
    }

    /// Whether no directory has ignore rules or project markers.
    pub open spec fn plain(self) -> bool {
        forall|dir: Seq<char>|
            self.is_directory(dir) ==> {
                &&& (#[trigger] self.directories[dir]).ignore is Missing
                &&& !self.directories[dir].markers.manifest
                &&& !self.directories[dir].markers.dependencies
            }
    }

    /// The test for a regular file.
    pub open spec fn file_test(self) -> spec_fn(Seq<char>) -> bool {
        |path: Seq<char>| self.is_file(path)
    }

    /// Every regular file in the tree below the directory `dir`: its
    /// children that are files, and the files below its children that are
    /// directories.
    pub open spec fn files_below(self, dir: Seq<char>) -> Seq<Seq<char>>
        decreases self.weight(WorkView::Enter { directory: dir }), 1nat, 0nat,
    {
        if self.is_directory(dir) {
            self.files_among(
                self.weight(WorkView::Enter { directory: dir }),
                self.directories[dir].children,
            )
        } else {
            Seq::empty()
        }
    }

    /// The regular files at and below `children`, taking the directories
    /// lower than `bound`.
    pub open spec fn files_among(self, bound: nat, children: Seq<Seq<char>>) -> Seq<Seq<char>>
        decreases bound, 0nat, children.len(),
    {
        if children.len() == 0 {
            Seq::empty()
        } else {
            let child = children.last();
            self.files_among(bound, children.drop_last()) + (if self.is_file(child) {
                seq![child]
            } else if self.weight(WorkView::Enter { directory: child }) < bound {
                self.files_below(child)
            } else {
                Seq::empty()
            })
        }
    }

    /// Whether `answer` is what looking up `work` can yield on this tree. A
    /// directory is seen as the tree has it; a path that names none cannot
    /// be read. A regular file yields its bytes, or cannot be read; any
    /// other path yields a folder.
    pub open spec fn answers(self, work: WorkView, answer: Answer) -> bool {
        match (work, answer) {
            (WorkView::Enter { directory }, Answer::Entered(found)) => {
                if self.is_directory(directory) {
                    found == EnteredView::Seen(self.directories[directory])
                } else {
                    found is Unreadable
                }
            },
            (WorkView::Visit { path, .. }, Answer::Visited(found)) => {
                if self.is_file(path) {
                    found == VisitedView::File(self.files[path]) || found is Unreadable
                } else {
                    found == VisitedView::Folder
                }
            },
            _ => false,
        }
    }

    /// Whether `step` can be taken from `walk` on this tree.
    pub open spec fn allows(self, walk: TraversalView, step: Move) -> bool {
        &&& 0 <= step.pick < walk.pending.len()
        &&& self.answers(walk.pending[step.pick], step.answer)
    }

    /// Whether the steps of `steps` can be taken from `walk` on this tree,
    /// one after the other.
    pub open spec fn allows_all(self, walk: TraversalView, steps: Seq<Move>) -> bool
        decreases steps.len(),
    {
        steps.len() == 0 || (self.allows(walk, steps.first()) && self.allows_all(
            moved(walk, steps.first()),
            steps.drop_first(),
        ))
    }
}

/// The path that a piece of work is about.
pub open spec fn anchor(work: WorkView) -> Seq<char> {
    match work {
        WorkView::Enter { directory } => directory,
        WorkView::Visit { path, .. } => path,
    }
}

/// Whether `answer` is of the kind that `work` asks for.
pub open spec fn in_kind(work: WorkView, answer: Answer) -> bool {
    match (work, answer) {
        (WorkView::Enter { .. }, Answer::Entered(_)) => true,
        (WorkView::Visit { .. }, Answer::Visited(_)) => true,
        _ => false,
    }
}

/// `walk` once the answer to `work` is taken in, as `Traversal::entered` and
/// `Traversal::visited` take it in.
pub open spec fn absorbed(
    walk: TraversalView,
    work: WorkView,
    answer: Answer,
    written: bool,
) -> TraversalView {
    match (work, answer) {
        (WorkView::Enter { directory }, Answer::Entered(found)) => after_entered(
            walk,
            directory,
            found,
        ),
        (WorkView::Visit { path, transitive }, Answer::Visited(found)) => after_visited(
            walk,
            path,
            transitive,
            found,
            written,
        ),
        _ => walk,
    }
}

/// `walk` after `step`: the work picked waits no longer, and its answer is
/// taken in.
pub open spec fn moved(walk: TraversalView, step: Move) -> TraversalView {
    if 0 <= step.pick < walk.pending.len() && in_kind(walk.pending[step.pick], step.answer) {
        absorbed(
            TraversalView { pending: walk.pending.remove(step.pick), ..walk },
            walk.pending[step.pick],
            step.answer,
            step.written,
        )
    } else {
        walk
    }
}

/// `walk` after the steps of `steps`, one after the other.
pub open spec fn run(walk: TraversalView, steps: Seq<Move>) -> TraversalView
    decreases steps.len(),
{
    if steps.len() == 0 {
        walk
    } else {
        run(moved(walk, steps.first()), steps.drop_first())
    }
}

} // verus!
