//! The walk over a directory tree.
//!
//! A `Traversal` holds the work that is still to be done and the archive
//! that the walk fills. It never touches the file system: it hands out work,
//! and is told what was found. Work can be looked up in any order and by any
//! number of workers; what was found is taken in one answer at a time, and
//! once only for each piece of work that was handed out.

use vstd::prelude::*;
use crate::exclusion::{resolve, resolved, Observation, ObservationView, TaskView};
use crate::paths::{relative_part, relative_to};
use crate::sink::{
    name_fits, ArchiveEntry, ArchiveSink, Compression, EntryView, SinkError, SinkState,
};

verus! {

/// Something to look up in the file system.
#[derive(Debug)]
pub enum Work {
    /// Observe this directory.
    Enter { directory: String },
    /// Tell what this entry is, and read it if it is a regular file.
    /// `transitive` says that the entry comes from a listing that covers its
    /// whole subtree.
    Visit { path: String, transitive: bool },
}

/// `Work` over texts.
pub enum WorkView {
    Enter { directory: Seq<char> },
    Visit { path: Seq<char>, transitive: bool },
}

impl View for Work {
    type V = WorkView;

    open spec fn view(&self) -> WorkView {
        match self {
            Work::Enter { directory } => WorkView::Enter { directory: directory@ },
            Work::Visit { path, transitive } => WorkView::Visit {
                path: path@,
                transitive: *transitive,
            },
        }
    }
}

/// What came of observing a directory.
#[derive(Debug)]
pub enum Entered {
    Seen(Observation),
    /// The directory could not be read; the text says why.
    Unreadable(String),
}

/// `Entered` over texts.
pub enum EnteredView {
    Seen(ObservationView),
    Unreadable(Seq<char>),
}

impl View for Entered {
    type V = EnteredView;

    open spec fn view(&self) -> EnteredView {
        match self {
            Entered::Seen(seen) => EnteredView::Seen(seen@),
            Entered::Unreadable(reason) => EnteredView::Unreadable(reason@),
        }
    }
}

/// What came of looking at an entry.
#[derive(Debug)]
pub enum Visited {
    /// A regular file, with its bytes.
    File(Vec<u8>),
    /// Anything that is not a regular file.
    Folder,
    /// A regular file that could not be read; the text says why.
    Unreadable(String),
}

/// `Visited` over sequences.
pub enum VisitedView {
    File(Seq<u8>),
    Folder,
    Unreadable(Seq<char>),
}

impl View for Visited {
    type V = VisitedView;

    open spec fn view(&self) -> VisitedView {
        match self {
            Visited::File(bytes) => VisitedView::File(bytes@),
            Visited::Folder => VisitedView::Folder,
            Visited::Unreadable(reason) => VisitedView::Unreadable(reason@),
        }
    }
}

/// Why a walk failed, or refused a request.
#[derive(Debug)]
pub enum TraversalError {
    /// A directory or a file could not be read.
    Unreadable { path: String, reason: String },
    /// A file to archive does not lie below the root of the walk.
    OutsideRoot { path: String },
    /// The archive refused an entry.
    Sink(SinkError),
    /// The walk had failed before.
    Aborted,
    /// An answer came for work that is not handed out: it never was, or has
    /// been answered before.
    Unasked { path: String },
    /// The walk was asked for its archive with work left to do: waiting, or
    /// handed out and not answered.
    Unfinished,
}

/// A walk at one moment: its root, the work not yet handed out, the entries
/// archived so far, and whether it has failed.
pub struct TraversalView {
    pub root: Seq<char>,
    pub pending: Seq<WorkView>,
    pub archive: Seq<EntryView>,
    pub failed: bool,
}

/// How every file is stored.
pub open spec fn stored_as() -> Compression {
    Compression::Bzip2
}

/// The entry that archives a file under `name`.
pub open spec fn entry_for(name: Seq<char>, bytes: Seq<u8>) -> EntryView {
    EntryView { name, bytes, method: stored_as() }
}

/// One visit for each entry of a task, in order.
pub open spec fn visits(task: TaskView) -> Seq<WorkView> {
    Seq::new(
        task.entries.len(),
        |i: int| WorkView::Visit { path: task.entries[i], transitive: task.transitive },
    )
}

/// A walk over `root` before anything was looked up.
pub open spec fn began(root: Seq<char>) -> TraversalView {
    TraversalView {
        root,
        pending: seq![WorkView::Enter { directory: root }],
        archive: Seq::empty(),
        failed: false,
    }
}

/// `walk` once it has failed: no work is left.
pub open spec fn halted(walk: TraversalView) -> TraversalView {
    TraversalView { pending: Seq::empty(), failed: true, ..walk }
}

/// `walk` once `directory` has been observed. Each entry to process in it
/// becomes a visit; an unreadable directory fails the walk.
pub open spec fn after_entered(
    walk: TraversalView,
    directory: Seq<char>,
    answer: EnteredView,
) -> TraversalView {
    if walk.failed {
        walk
    } else {
        match answer {
            EnteredView::Seen(seen) => TraversalView {
                pending: walk.pending + visits(resolved(directory, seen)),
                ..walk
            },
            EnteredView::Unreadable(_) => halted(walk),
        }
    }
}

/// `walk` once the entry at `path` has been looked at; `written` tells
/// whether the archive took the entry made of it. A file is archived under
/// its path relative to the root. Anything else is entered, unless it comes
/// from a transitive listing. A file that cannot be read, that lies outside
/// the root or that the archive does not take fails the walk.
pub open spec fn after_visited(
    walk: TraversalView,
    path: Seq<char>,
    transitive: bool,
    answer: VisitedView,
    written: bool,
) -> TraversalView {
    if walk.failed {
        walk
    } else {
        match answer {
            VisitedView::File(bytes) => {
                if relative_part(walk.root, path) is Some && written {
                    TraversalView {
                        archive: walk.archive.push(
                            entry_for(relative_part(walk.root, path).unwrap(), bytes),
                        ),
                        ..walk
                    }
                } else {
                    halted(walk)
                }
            },
            VisitedView::Folder => {
                if transitive {
                    walk
                } else {
                    TraversalView {
                        pending: walk.pending.push(WorkView::Enter { directory: path }),
                        ..walk
                    }
                }
            },
            VisitedView::Unreadable(_) => halted(walk),
        }
    }
}

/// The work views of a sequence of work items.
pub open spec fn work_views(items: Seq<Work>) -> Seq<WorkView> {
    Seq::new(items.len(), |i: int| items[i]@)
}

/// Tells whether two pieces of work are the same.
fn same_work(one: &Work, other: &Work) -> (same: bool)
    ensures
        same == (one@ == other@),
{
    match one {
        Work::Enter { directory } => match other {
            Work::Enter { directory: against } => *directory == *against,
            Work::Visit { .. } => false,
        },
        Work::Visit { path, transitive } => match other {
            Work::Enter { .. } => false,
            Work::Visit { path: against, transitive: covered } => *path == *against
                && *transitive == *covered,
        },
    }
}

/// Makes a second copy of a piece of work.
fn copy_of(work: &Work) -> (copy: Work)
    ensures
        copy@ == work@,
{
    match work {
        Work::Enter { directory } => Work::Enter { directory: directory.clone() },
        Work::Visit { path, transitive } => Work::Visit {
            path: path.clone(),
            transitive: *transitive,
        },
    }
}

/// A walk over a directory tree that fills an archive.
pub struct Traversal {
    root: String,
    pending: Vec<Work>,
    issued: Vec<Work>,
    sink: ArchiveSink,
    failed: bool,
}

impl View for Traversal {
    type V = TraversalView;

    closed spec fn view(&self) -> TraversalView {
        TraversalView {
            root: self.root@,
            pending: work_views(self.pending@),
            archive: self.sink.entries(),
            failed: self.failed,
        }
    }
}

impl Traversal {
    /// The archive that the walk fills.
    pub closed spec fn sink(&self) -> ArchiveSink {
        self.sink
    }

    /// The work that is handed out and not answered yet, oldest first.
    pub closed spec fn handed_out(&self) -> Seq<WorkView> {
        work_views(self.issued@)
    }

    /// The archive is sound, holds what the walk has archived, is never
    /// finalized, and is open as long as the walk has not failed; a failed
    /// walk has no work left.
    pub open spec fn wf(&self) -> bool {
        &&& self.sink().wf()
        &&& self.sink().entries() == self@.archive
        &&& self.sink().state() != SinkState::Finalized
        &&& !self@.failed ==> self.sink().state() == SinkState::Open
        &&& self@.failed ==> self@.pending.len() == 0
    }

    /// Starts a walk over the directory `root`, with an empty archive and
    /// no work handed out.
    pub fn begin(root: String) -> (walk: Traversal)
        ensures
            walk.wf(),
            walk@ == began(root@),
            walk.handed_out() == Seq::<WorkView>::empty(),
    {
        let mut pending: Vec<Work> = Vec::new();
        pending.push(Work::Enter { directory: root.clone() });
        let walk = Traversal {
            root,
            pending,
            issued: Vec::new(),
            sink: ArchiveSink::new(),
            failed: false,
        };
        assert(walk@.pending =~= began(root@).pending);
        assert(walk.handed_out() =~= Seq::<WorkView>::empty());
        walk
    }

    /// Tells whether the walk has failed.
    pub fn has_failed(&self) -> (failed: bool)
        ensures
            failed == self@.failed,
    {
        self.failed
    }

    /// Tells whether no work is waiting to be handed out.
    pub fn is_idle(&self) -> (idle: bool)
        ensures
            idle == (self@.pending.len() == 0),
    {
        self.pending.len() == 0
    }

    /// Hands out waiting work, newest first: as much as there is, up to
    /// `limit` items. What is handed out waits no longer, and is kept on
    /// record until it is answered.
    pub fn next_batch(&mut self, limit: usize) -> (batch: Vec<Work>)
        requires
            old(self).wf(),
        ensures
            final(self).wf(),
            final(self).handed_out() == old(self).handed_out() + work_views(batch@),
            batch@.len() == if limit <= old(self)@.pending.len() {
                limit as int
            } else {
                old(self)@.pending.len() as int
            },
            final(self)@ == (TraversalView {
                pending: old(self)@.pending.take(old(self)@.pending.len() - batch@.len()),
                ..old(self)@
            }),
            forall|i: int|
                0 <= i < batch@.len() ==> #[trigger] batch@[i]@ == old(self)@.pending[old(
                    self,
                )@.pending.len() - 1 - i],
    {
        let mut batch: Vec<Work> = Vec::new();
        let ghost before = self.pending@;
        assert(work_views(self.issued@) =~= work_views(old(self).issued@) + work_views(batch@));
        while batch.len() < limit && self.pending.len() > 0
            invariant
                self.root == old(self).root,
                self.sink == old(self).sink,
                self.failed == old(self).failed,
                work_views(self.issued@) == work_views(old(self).issued@) + work_views(batch@),
                before == old(self).pending@,
                batch@.len() <= limit,
                batch@.len() + self.pending@.len() == before.len(),
                self.pending@ == before.take(before.len() - batch@.len()),
                forall|i: int|
                    0 <= i < batch@.len() ==> #[trigger] batch@[i] == before[before.len() - 1 - i],
            decreases self.pending@.len(),
        {
            let work = self.pending.pop().unwrap();
            let ghost recorded = work_views(self.issued@);
            let ghost given = work_views(batch@);
            self.issued.push(copy_of(&work));
            batch.push(work);
            assert(work_views(self.issued@) =~= recorded.push(work@));
            assert(work_views(batch@) =~= given.push(work@));
            assert(work_views(self.issued@) =~= work_views(old(self).issued@) + work_views(
                batch@,
            ));
        }
        assert(self@.pending =~= old(self)@.pending.take(
            old(self)@.pending.len() - batch@.len(),
        ));
        batch
    }

    /// Takes the first copy of `asked` off the record of the work handed
    /// out, and tells whether there was one.
    fn redeem(&mut self, asked: &Work) -> (was_out: bool)
        ensures
            was_out == old(self).handed_out().contains(asked@),
            final(self).handed_out() == old(self).handed_out().remove_value(asked@),
            final(self)@ == old(self)@,
            final(self).sink == old(self).sink,
            final(self).pending == old(self).pending,
            final(self).failed == old(self).failed,
            final(self).root == old(self).root,
    {
        let ghost record = work_views(self.issued@);
        let mut i: usize = 0;
        while i < self.issued.len()
            invariant
                i <= self.issued.len(),
                *self == *old(self),
                record == work_views(self.issued@),
                forall|k: int| 0 <= k < i ==> record[k] != asked@,
            decreases self.issued.len() - i,
        {
            if same_work(&self.issued[i], asked) {
                proof {
                    record.index_of_first_ensures(asked@);
                    assert(record[i as int] == asked@);
                    let first = record.index_of_first(asked@).unwrap();
                    assert(record[first] == asked@);
                }
                assert(record.index_of_first(asked@) == Some(i as int));
                let _ = self.issued.remove(i);
                assert(work_views(self.issued@) =~= record.remove(i as int));
                return true;
            }
            i = i + 1;
        }
        proof {
            record.index_of_first_ensures(asked@);
        }
        assert(!record.contains(asked@));
        false
    }

    /// Stops the walk for good.
    fn halt(&mut self)
        requires
            old(self).sink.wf(),
            old(self).sink.state() != SinkState::Finalized,
        ensures
            final(self).wf(),
            final(self)@ == halted(old(self)@),
            final(self).handed_out() == old(self).handed_out(),
    {
        self.pending = Vec::new();
        self.failed = true;
        assert(self@.pending =~= Seq::<WorkView>::empty());
    }

    /// Takes in what was found of the directory `directory`, once for each
    /// time that entering it was handed out. The entries to process in it
    /// are decided and queued as visits, behind the work that is waiting. A
    /// directory that could not be read fails the walk. An answer to a walk
    /// that has failed already, and one that was not asked for, is refused
    /// and changes nothing.
    pub fn entered(&mut self, directory: String, answer: Entered) -> (result: Result<
        (),
        TraversalError,
    >)
        requires
            old(self).wf(),
        ensures
            final(self).wf(),
            final(self)@ == if old(self).handed_out().contains(
                WorkView::Enter { directory: directory@ },
            ) {
                after_entered(old(self)@, directory@, answer@)
            } else {
                old(self)@
            },
            final(self).handed_out() == if old(self)@.failed {
                old(self).handed_out()
            } else {
                old(self).handed_out().remove_value(WorkView::Enter { directory: directory@ })
            },
            match result {
                Ok(()) => {
                    &&& !old(self)@.failed
                    &&& old(self).handed_out().contains(WorkView::Enter { directory: directory@ })
                    &&& answer is Seen
                },
                Err(TraversalError::Aborted) => old(self)@.failed,
                Err(TraversalError::Unasked { path }) => {
                    &&& !old(self)@.failed
                    &&& !old(self).handed_out().contains(WorkView::Enter { directory: directory@ })
                    &&& path@ == directory@
                },
                Err(TraversalError::Unreadable { path, reason }) => {
                    &&& !old(self)@.failed
                    &&& old(self).handed_out().contains(WorkView::Enter { directory: directory@ })
                    &&& path@ == directory@
                    &&& answer@ == EnteredView::Unreadable(reason@)
                },
                Err(_) => false,
            },
    {
        if self.failed {
            return Err(TraversalError::Aborted);
        }
        let asked = Work::Enter { directory: directory.clone() };
        if !self.redeem(&asked) {
            return Err(TraversalError::Unasked { path: directory });
        }
        match answer {
            Entered::Unreadable(reason) => {
                self.halt();
                Err(TraversalError::Unreadable { path: directory, reason })
            },
            Entered::Seen(seen) => {
                let ghost added = visits(resolved(directory@, seen@));
                let ghost record = self.issued@;
                let task = resolve(directory, seen);
                let mut i: usize = 0;
                while i < task.entries.len()
                    invariant
                        i <= task.entries.len(),
                        self.root == old(self).root,
                        self.sink == old(self).sink,
                        self.failed == old(self).failed,
                        self.issued@ == record,
                        added == visits(task@),
                        work_views(self.pending@) == work_views(old(self).pending@) + added.take(
                            i as int,
                        ),
                    decreases task.entries.len() - i,
                {
                    let ghost queued = work_views(self.pending@);
                    self.pending.push(
                        Work::Visit { path: task.entries[i].clone(), transitive: task.transitive },
                    );
                    assert(work_views(self.pending@) =~= queued.push(added[i as int]));
                    assert(added.take(i + 1) =~= added.take(i as int).push(added[i as int]));
                    i = i + 1;
                }
                assert(added.take(i as int) =~= added);
                Ok(())
            },
        }
    }

    /// Takes in what was found of the entry at `path`, once for each time
    /// that visiting it was handed out. A regular file is appended to the
    /// archive under its path relative to the root of the walk; that
    /// succeeds exactly where the file lies below the root, its name fits
    /// and the archive takes the entry. Anything else is queued to be
    /// entered, unless `transitive` says that a listing covers it already.
    /// The walk fails on a file that could not be read, on one outside the
    /// root, and on one that the archive does not take. An answer to a walk
    /// that has failed already, and one that was not asked for, is refused
    /// and changes nothing.
    pub fn visited(&mut self, path: String, transitive: bool, answer: Visited) -> (result: Result<
        (),
        TraversalError,
    >)
        requires
            old(self).wf(),
        ensures
            final(self).wf(),
            final(self)@ == if old(self).handed_out().contains(
                WorkView::Visit { path: path@, transitive },
            ) {
                after_visited(old(self)@, path@, transitive, answer@, result is Ok)
            } else {
                old(self)@
            },
            final(self).handed_out() == if old(self)@.failed {
                old(self).handed_out()
            } else {
                old(self).handed_out().remove_value(WorkView::Visit { path: path@, transitive })
            },
            match result {
                Ok(()) => {
                    &&& !old(self)@.failed
                    &&& old(self).handed_out().contains(
                        WorkView::Visit { path: path@, transitive },
                    )
                    &&& match answer@ {
                        VisitedView::File(bytes) => {
                            &&& relative_part(old(self)@.root, path@) is Some
                            &&& name_fits(relative_part(old(self)@.root, path@).unwrap())
                            &&& old(self).sink().willing(
                                entry_for(relative_part(old(self)@.root, path@).unwrap(), bytes),
                            )
                        },
                        VisitedView::Folder => true,
                        VisitedView::Unreadable(_) => false,
                    }
                },
                Err(TraversalError::Aborted) => old(self)@.failed,
                Err(TraversalError::Unasked { path: at }) => {
                    &&& !old(self)@.failed
                    &&& !old(self).handed_out().contains(
                        WorkView::Visit { path: path@, transitive },
                    )
                    &&& at@ == path@
                },
                Err(TraversalError::Unreadable { path: at, reason }) => {
                    &&& !old(self)@.failed
                    &&& old(self).handed_out().contains(
                        WorkView::Visit { path: path@, transitive },
                    )
                    &&& at@ == path@
                    &&& answer@ == VisitedView::Unreadable(reason@)
                },
                Err(TraversalError::OutsideRoot { path: at }) => {
                    &&& !old(self)@.failed
                    &&& old(self).handed_out().contains(
                        WorkView::Visit { path: path@, transitive },
                    )
                    &&& at@ == path@
                    &&& answer is File
                    &&& relative_part(old(self)@.root, path@) is None
                },
                Err(TraversalError::Sink(refusal)) => {
                    &&& !old(self)@.failed
                    &&& old(self).handed_out().contains(
                        WorkView::Visit { path: path@, transitive },
                    )
                    &&& answer@ matches VisitedView::File(bytes)
                    &&& relative_part(old(self)@.root, path@) is Some
                    &&& match refusal {
                        SinkError::NameTooLong => !name_fits(
                            relative_part(old(self)@.root, path@).unwrap(),
                        ),
                        SinkError::Writer(_) => {
                            &&& name_fits(relative_part(old(self)@.root, path@).unwrap())
                            &&& !old(self).sink().willing(
                                entry_for(relative_part(old(self)@.root, path@).unwrap(), bytes),
                            )
                        },
                        _ => false,
                    }
                },
                Err(TraversalError::Unfinished) => false,
            },
    {
        if self.failed {
            return Err(TraversalError::Aborted);
        }
        let asked = Work::Visit { path: path.clone(), transitive };
        if !self.redeem(&asked) {
            return Err(TraversalError::Unasked { path });
        }
        match answer {
            Visited::Unreadable(reason) => {
                self.halt();
                Err(TraversalError::Unreadable { path, reason })
            },
            Visited::Folder => {
                if !transitive {
                    let ghost queued = work_views(self.pending@);
                    self.pending.push(Work::Enter { directory: path });
                    assert(work_views(self.pending@) =~= queued.push(
                        WorkView::Enter { directory: path@ },
                    ));
                }
                Ok(())
            },
            Visited::File(bytes) => {
                match relative_to(self.root.as_str(), path.as_str()) {
                    None => {
                        self.halt();
                        Err(TraversalError::OutsideRoot { path })
                    },
                    Some(name) => {
                        let entry = ArchiveEntry { name, bytes, method: Compression::Bzip2 };
                        match self.sink.append(&entry) {
                            Ok(()) => Ok(()),
                            Err(refusal) => {
                                self.halt();
                                Err(TraversalError::Sink(refusal))
                            },
                        }
                    },
                }
            },
        }
    }

    /// Gives up the archive of a walk that is through: one that has not
    /// failed, has handed out all its work and has had an answer to each
    /// piece. The archive is open and holds what the walk appended. Any
    /// other walk keeps its archive, so that it cannot be finalized.
    pub fn finish(self) -> (result: Result<ArchiveSink, TraversalError>)
        requires
            self.wf(),
        ensures
            match result {
                Ok(sink) => {
                    &&& !self@.failed
                    &&& self@.pending.len() == 0
                    &&& self.handed_out().len() == 0
                    &&& sink == self.sink()
                    &&& sink.wf()
                    &&& sink.state() == SinkState::Open
                    &&& sink.entries() == self@.archive
                },
                Err(TraversalError::Aborted) => self@.failed,
                Err(TraversalError::Unfinished) => !self@.failed && (self@.pending.len() > 0
                    || self.handed_out().len() > 0),
                Err(_) => false,
            },
    {
        if self.failed {
            Err(TraversalError::Aborted)
        } else if self.pending.len() > 0 || self.issued.len() > 0 {
            Err(TraversalError::Unfinished)
        } else {
            Ok(self.sink)
        }
    }
}

} // verus!
