//! The run as a whole: which arguments are accepted, where the archive is
//! built, when it may be completed, and how the run ends.

use vstd::prelude::*;
use crate::paths::{
    at_or_below, is_child, join, joined, last_separator, lemma_children_keep_apart,
    lemma_joined_is_child, lemma_last_separator, parent_of, parent_part, separator, with_separator,
};
use crate::sink::SinkError;
use crate::traversal::{Traversal, TraversalError};

verus! {

/// What a path names in the file system.
#[derive(Clone, Copy, Debug, PartialEq, Eq, Structural)]
pub enum PathKind {
    /// Nothing.
    Missing,
    /// A regular file.
    File,
    /// A directory.
    Directory,
}

/// How a run ended.
#[derive(Clone, Copy, Debug, PartialEq, Eq, Structural)]
pub enum Outcome {
    /// The archive is at its destination.
    Done,
    /// The wrong number of arguments was given.
    Usage,
    /// The source is not an existing directory.
    SourceNotDirectory,
    /// The destination is an existing directory.
    DestinationIsDirectory,
    /// The temporary archive could not be created.
    TemporaryNotCreated,
    /// The walk over the source failed.
    TraversalFailed,
    /// The archive could not be completed.
    FinalizeFailed,
    /// The archive is complete but could not be moved to its destination; it
    /// is still at its temporary path.
    NotRelocated,
}

/// The steps of a run that can fail, in their order.
#[derive(Clone, Copy, Debug, PartialEq, Eq, Structural)]
pub enum Stage {
    /// Resolving the source to an absolute path.
    Resolving,
    /// Creating the temporary archive.
    Creating,
    /// Walking the source.
    Walking,
    /// Completing the archive.
    Finalizing,
    /// Storing the archive at its temporary path.
    Storing,
    /// Moving the archive to its destination.
    Relocating,
}

/// Why no archive was produced from a walk.
#[derive(Debug)]
pub enum BackupError {
    /// The walk had failed, or was not through.
    Traversal(TraversalError),
    /// The archive could not be completed.
    Finalize(SinkError),
}

/// How many arguments a run takes: the source and the destination.
pub open spec fn arguments_taken() -> nat {
    2
}

/// How a run ends that fails at `stage`.
pub open spec fn failure_at(stage: Stage) -> Outcome {
    match stage {
        Stage::Resolving => Outcome::SourceNotDirectory,
        Stage::Creating => Outcome::TemporaryNotCreated,
        Stage::Walking => Outcome::TraversalFailed,
        Stage::Finalizing | Stage::Storing => Outcome::FinalizeFailed,
        Stage::Relocating => Outcome::NotRelocated,
    }
}

/// Name of the file in which the archive is built.
pub open spec fn temporary_name() -> Seq<char> {
    "backupmydevstuff_tmp.zip"@
}

/// Where the archive of `source` is built: in the directory that contains
/// `source`, so that the walk over `source` cannot come across it.
pub open spec fn temporary_path(source: Seq<char>) -> Option<Seq<char>> {
    match parent_part(source) {
        Some(parent) => Some(joined(parent, temporary_name())),
        None => None,
    }
}

/// The verdict on the two paths given: the source has to be an existing
/// directory, and the destination must not be one. The source is judged
/// first.
pub open spec fn verdict(source: PathKind, destination: PathKind) -> Result<(), Outcome> {
    if source != PathKind::Directory {
        Err(Outcome::SourceNotDirectory)
    } else if destination == PathKind::Directory {
        Err(Outcome::DestinationIsDirectory)
    } else {
        Ok(())
    }
}

/// The exit status that goes with an outcome: success where the archive
/// exists, at its destination or not, and failure otherwise.
pub open spec fn status_of(outcome: Outcome) -> i32 {
    match outcome {
        Outcome::Done | Outcome::NotRelocated => 0,
        _ => 1,
    }
}

/// The message that goes with an outcome.
pub open spec fn message_of(outcome: Outcome) -> Seq<char> {
    match outcome {
        Outcome::Done => "backupmydevstuff successfully finished !"@,
        Outcome::Usage => "Usage: backupmydevstuff [DIR_PATH] [ARCHIVE_PATH]"@,
        Outcome::SourceNotDirectory => "[DIR_PATH] should be a directory"@,
        Outcome::DestinationIsDirectory => "[ARCHIVE_PATH] should be a file"@,
        Outcome::TemporaryNotCreated => "Could not create archive file:"@,
        Outcome::TraversalFailed => "Could not zip a directory:"@,
        Outcome::FinalizeFailed => "Could not finalize the archive:"@,
        Outcome::NotRelocated => "Cannot move the resulting archive to its destination\nYou can still find it there:"@,
    }
}

/// Judges the number of arguments given to a run, the name of the program
/// not counted.
pub fn check_count(given: usize) -> (result: Result<(), Outcome>)
    ensures
        result == if given == arguments_taken() {
            Ok::<(), Outcome>(())
        } else {
            Err::<(), Outcome>(Outcome::Usage)
        },
{
    if given == 2 {
        Ok(())
    } else {
        Err(Outcome::Usage)
    }
}

/// Tells how a run ends that fails at `stage`.
pub fn failed_at(stage: Stage) -> (outcome: Outcome)
    ensures
        outcome == failure_at(stage),
{
    match stage {
        Stage::Resolving => Outcome::SourceNotDirectory,
        Stage::Creating => Outcome::TemporaryNotCreated,
        Stage::Walking => Outcome::TraversalFailed,
        Stage::Finalizing => Outcome::FinalizeFailed,
        Stage::Storing => Outcome::FinalizeFailed,
        Stage::Relocating => Outcome::NotRelocated,
    }
}

/// Tells at which stage a walk gave no archive.
pub fn stage_of(failure: &BackupError) -> (stage: Stage)
    ensures
        stage == match failure {
            BackupError::Traversal(_) => Stage::Walking,
            BackupError::Finalize(_) => Stage::Finalizing,
        },
{
    match failure {
        BackupError::Traversal(_) => Stage::Walking,
        BackupError::Finalize(_) => Stage::Finalizing,
    }
}

/// Judges the two paths given to a run.
pub fn validate(source: PathKind, destination: PathKind) -> (result: Result<(), Outcome>)
    ensures
        result == verdict(source, destination),
{
    match source {
        PathKind::Directory => {},
        _ => {
            return Err(Outcome::SourceNotDirectory);
        },
    }
    match destination {
        PathKind::Directory => Err(Outcome::DestinationIsDirectory),
        _ => Ok(()),
    }
}

/// Gives the path at which the archive of `source` is built, or `None`
/// where no directory contains `source`.
pub fn temporary_archive_path(source: &str) -> (path: Option<String>)
    ensures
        path is Some == temporary_path(source@) is Some,
        path is Some ==> Some(path.unwrap()@) == temporary_path(source@),
{
    match parent_of(source) {
        Some(parent) => Some(join(parent.as_str(), "backupmydevstuff_tmp.zip")),
        None => None,
    }
}

/// Completes the archive of a walk and hands out its bytes: the image of
/// its sink. This succeeds exactly on a walk that has not failed, has no
/// work waiting or handed out, and whose sink has an image. From any other
/// walk no archive is made: it is dropped as it stands.
pub fn complete(walk: Traversal) -> (result: Result<Vec<u8>, BackupError>)
    requires
        walk.wf(),
    ensures
        result is Ok <==> !walk@.failed && walk@.pending.len() == 0 && walk.handed_out().len()
            == 0 && walk.sink().image() is Some,
        match result {
            Ok(bytes) => walk.sink().image() == Some(bytes@),
            Err(BackupError::Traversal(TraversalError::Aborted)) => walk@.failed,
            Err(BackupError::Traversal(TraversalError::Unfinished)) => !walk@.failed && (
            walk@.pending.len() > 0 || walk.handed_out().len() > 0),
            Err(BackupError::Finalize(SinkError::Writer(_))) => !walk@.failed
                && walk@.pending.len() == 0 && walk.handed_out().len() == 0
                && walk.sink().image() is None,
            Err(_) => false,
        },
{
    match walk.finish() {
        Err(failure) => Err(BackupError::Traversal(failure)),
        Ok(sink) => {
            let mut sink = sink;
            match sink.finalize() {
                Ok(bytes) => Ok(bytes),
                Err(failure) => Err(BackupError::Finalize(failure)),
            }
        },
    }
}

/// Gives the exit status that goes with an outcome.
pub fn exit_status(outcome: Outcome) -> (status: i32)
    ensures
        status == status_of(outcome),
{
    match outcome {
        Outcome::Done => 0,
        Outcome::NotRelocated => 0,
        _ => 1,
    }
}

/// Gives the message that goes with an outcome. It is complete for the
/// outcomes that come from the arguments and for success; for the others
/// the cause follows it, and the temporary path where the archive was not
/// moved.
pub fn message(outcome: Outcome) -> (text: &'static str)
    ensures
        text@ == message_of(outcome),
{
    match outcome {
        Outcome::Done => "backupmydevstuff successfully finished !",
        Outcome::Usage => "Usage: backupmydevstuff [DIR_PATH] [ARCHIVE_PATH]",
        Outcome::SourceNotDirectory => "[DIR_PATH] should be a directory",
        Outcome::DestinationIsDirectory => "[ARCHIVE_PATH] should be a file",
        Outcome::TemporaryNotCreated => "Could not create archive file:",
        Outcome::TraversalFailed => "Could not zip a directory:",
        Outcome::FinalizeFailed => "Could not finalize the archive:",
        Outcome::NotRelocated => "Cannot move the resulting archive to its destination\nYou can still find it there:",
    }
}

/// A run that fails before its archive is complete exits with failure; one
/// that fails only to move the complete archive exits with success.
pub proof fn law_only_relocation_fails_softly(stage: Stage)
    ensures
        status_of(failure_at(stage)) == if stage == Stage::Relocating {
            0i32
        } else {
            1i32
        },
{
}

/// The temporary archive of a directory lies outside it: it is neither the
/// directory nor below it. This holds of every source whose last name is set
/// off by a single separator and is not the temporary name itself.
pub proof fn law_temporary_archive_lies_outside(source: Seq<char>)
    requires
        temporary_path(source) is Some,
        temporary_path(source) != Some(source),
        source.last() != separator(),
        last_separator(source) > 0 ==> source[last_separator(source) - 1] != separator(),
    ensures
        !at_or_below(source, temporary_path(source).unwrap()),
{
    reveal_strlit("backupmydevstuff_tmp.zip");
    let name = temporary_name();
    let parent = parent_part(source).unwrap();
    let cut = last_separator(source);
    lemma_last_separator(source);
    assert forall|i: int| 0 <= i < name.len() implies name[i] != separator() by {}
    lemma_joined_is_child(parent, name);
    let base = with_separator(parent);
    assert(base =~= source.subrange(0, cut + 1));
    let rest = source.subrange(base.len() as int, source.len() as int);
    assert forall|i: int| 0 <= i < rest.len() implies rest[i] != separator() by {
        assert(rest[i] == source[cut + 1 + i]);
    }
    assert(is_child(parent, source));
    lemma_children_keep_apart(
        parent,
        temporary_path(source).unwrap(),
        source,
        temporary_path(source).unwrap(),
    );
}

} // verus!
