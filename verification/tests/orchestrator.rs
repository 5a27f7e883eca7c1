use backupmydevstuff::orchestrator::{
    check_count, complete, exit_status, failed_at, message, stage_of, temporary_archive_path,
    validate, BackupError, Outcome, PathKind, Stage,
};
use backupmydevstuff::sink::SinkError;
use backupmydevstuff::traversal::{Traversal, TraversalError};

#[test]
fn a_directory_and_a_free_destination_are_accepted() {
    assert_eq!(validate(PathKind::Directory, PathKind::Missing), Ok(()));
    assert_eq!(validate(PathKind::Directory, PathKind::File), Ok(()));
}

#[test]
fn a_source_that_is_a_file_is_refused() {
    assert_eq!(validate(PathKind::File, PathKind::Missing), Err(Outcome::SourceNotDirectory));
}

#[test]
fn a_source_that_does_not_exist_is_refused() {
    assert_eq!(validate(PathKind::Missing, PathKind::File), Err(Outcome::SourceNotDirectory));
}

#[test]
fn a_destination_that_is_a_directory_is_refused() {
    assert_eq!(
        validate(PathKind::Directory, PathKind::Directory),
        Err(Outcome::DestinationIsDirectory)
    );
}

#[test]
fn the_source_is_judged_before_the_destination() {
    assert_eq!(validate(PathKind::File, PathKind::Directory), Err(Outcome::SourceNotDirectory));
}

#[test]
fn the_temporary_archive_is_a_sibling_of_the_source() {
    assert_eq!(
        temporary_archive_path("/home/me/proj"),
        Some("/home/me/backupmydevstuff_tmp.zip".to_string())
    );
    assert_eq!(temporary_archive_path("/proj"), Some("/backupmydevstuff_tmp.zip".to_string()));
}

#[test]
fn the_root_directory_has_no_temporary_archive() {
    assert_eq!(temporary_archive_path("/"), None);
    assert_eq!(temporary_archive_path("proj"), None);
}

#[test]
fn only_an_existing_archive_exits_with_success() {
    assert_eq!(exit_status(Outcome::Done), 0);
    assert_eq!(exit_status(Outcome::NotRelocated), 0);
    assert_eq!(exit_status(Outcome::Usage), 1);
    assert_eq!(exit_status(Outcome::SourceNotDirectory), 1);
    assert_eq!(exit_status(Outcome::DestinationIsDirectory), 1);
    assert_eq!(exit_status(Outcome::TemporaryNotCreated), 1);
    assert_eq!(exit_status(Outcome::TraversalFailed), 1);
    assert_eq!(exit_status(Outcome::FinalizeFailed), 1);
}

#[test]
fn every_outcome_has_its_message() {
    assert_eq!(message(Outcome::Done), "backupmydevstuff successfully finished !");
    assert_eq!(message(Outcome::Usage), "Usage: backupmydevstuff [DIR_PATH] [ARCHIVE_PATH]");
    assert_eq!(message(Outcome::SourceNotDirectory), "[DIR_PATH] should be a directory");
    assert_eq!(message(Outcome::DestinationIsDirectory), "[ARCHIVE_PATH] should be a file");
    assert_eq!(message(Outcome::TemporaryNotCreated), "Could not create archive file:");
    assert_eq!(message(Outcome::TraversalFailed), "Could not zip a directory:");
    assert_eq!(message(Outcome::FinalizeFailed), "Could not finalize the archive:");
    assert_eq!(
        message(Outcome::NotRelocated),
        "Cannot move the resulting archive to its destination\nYou can still find it there:"
    );
}

#[test]
fn a_walk_with_work_left_yields_no_archive() {
    let walk = Traversal::begin("/proj".to_string());
    assert!(matches!(
        complete(walk),
        Err(BackupError::Traversal(TraversalError::Unfinished))
    ));
}

#[test]
fn two_arguments_are_taken() {
    assert_eq!(check_count(2), Ok(()));
    assert_eq!(check_count(0), Err(Outcome::Usage));
    assert_eq!(check_count(1), Err(Outcome::Usage));
    assert_eq!(check_count(3), Err(Outcome::Usage));
}

#[test]
fn every_stage_fails_in_its_own_way() {
    assert_eq!(failed_at(Stage::Resolving), Outcome::SourceNotDirectory);
    assert_eq!(failed_at(Stage::Creating), Outcome::TemporaryNotCreated);
    assert_eq!(failed_at(Stage::Walking), Outcome::TraversalFailed);
    assert_eq!(failed_at(Stage::Finalizing), Outcome::FinalizeFailed);
    assert_eq!(failed_at(Stage::Storing), Outcome::FinalizeFailed);
    assert_eq!(failed_at(Stage::Relocating), Outcome::NotRelocated);
}

#[test]
fn only_a_failed_relocation_exits_with_success() {
    assert_eq!(exit_status(failed_at(Stage::Relocating)), 0);
    assert_eq!(exit_status(failed_at(Stage::Walking)), 1);
    assert_eq!(exit_status(failed_at(Stage::Finalizing)), 1);
}

#[test]
fn an_error_names_its_stage() {
    assert_eq!(stage_of(&BackupError::Traversal(TraversalError::Aborted)), Stage::Walking);
    assert_eq!(stage_of(&BackupError::Finalize(SinkError::Broken)), Stage::Finalizing);
}
