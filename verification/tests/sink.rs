use std::io::{Cursor, Read};

use backupmydevstuff::sink::{ArchiveEntry, ArchiveSink, Compression, SinkError, SinkState};

fn entry(name: &str, bytes: &[u8], method: Compression) -> ArchiveEntry {
    ArchiveEntry { name: name.to_string(), bytes: bytes.to_vec(), method }
}

fn read_back(archive: Vec<u8>) -> Vec<(String, Vec<u8>)> {
    let mut reader = zip::ZipArchive::new(Cursor::new(archive)).unwrap();
    let mut found = Vec::new();
    for index in 0..reader.len() {
        let mut file = reader.by_index(index).unwrap();
        let mut bytes = Vec::new();
        file.read_to_end(&mut bytes).unwrap();
        found.push((file.name().to_string(), bytes));
    }
    found
}

#[test]
fn appended_entries_are_read_back_in_order() {
    let mut sink = ArchiveSink::new();
    assert_eq!(sink.status(), SinkState::Open);
    sink.append(&entry("a.txt", b"alpha", Compression::Bzip2)).unwrap();
    sink.append(&entry("sub/b.bin", &[0, 1, 2, 255], Compression::Stored)).unwrap();
    sink.append(&entry("empty", b"", Compression::Bzip2)).unwrap();
    let archive = sink.finalize().unwrap();
    assert_eq!(sink.status(), SinkState::Finalized);
    assert_eq!(
        read_back(archive),
        vec![
            ("a.txt".to_string(), b"alpha".to_vec()),
            ("sub/b.bin".to_string(), vec![0, 1, 2, 255]),
            ("empty".to_string(), Vec::new()),
        ]
    );
}

#[test]
fn an_empty_sink_finalizes_to_an_empty_archive() {
    let mut sink = ArchiveSink::new();
    let archive = sink.finalize().unwrap();
    assert!(read_back(archive).is_empty());
}

#[test]
fn append_after_finalize_is_refused() {
    let mut sink = ArchiveSink::new();
    sink.append(&entry("a.txt", b"alpha", Compression::Bzip2)).unwrap();
    sink.finalize().unwrap();
    let refused = sink.append(&entry("late.txt", b"late", Compression::Bzip2));
    assert!(matches!(refused, Err(SinkError::Finalized)));
    assert_eq!(sink.status(), SinkState::Finalized);
}

#[test]
fn finalize_twice_is_refused() {
    let mut sink = ArchiveSink::new();
    sink.finalize().unwrap();
    assert!(matches!(sink.finalize(), Err(SinkError::Finalized)));
}

#[test]
fn a_name_over_the_limit_is_refused_and_leaves_the_sink_open() {
    let mut sink = ArchiveSink::new();
    let long = "n".repeat(65536);
    let refused = sink.append(&entry(&long, b"x", Compression::Stored));
    assert!(matches!(refused, Err(SinkError::NameTooLong)));
    assert_eq!(sink.status(), SinkState::Open);
    let longest = "n".repeat(65535);
    sink.append(&entry(&longest, b"x", Compression::Stored)).unwrap();
    let archive = sink.finalize().unwrap();
    assert_eq!(read_back(archive), vec![(longest, b"x".to_vec())]);
}

#[test]
fn settle_passes_success_on_and_reaches_the_state_named() {
    let (state, result) = backupmydevstuff::sink::settle(Ok(7u8), SinkState::Finalized);
    assert_eq!(state, SinkState::Finalized);
    assert!(matches!(result, Ok(7)));
    let (state, result) = backupmydevstuff::sink::settle(Ok(()), SinkState::Open);
    assert_eq!(state, SinkState::Open);
    assert!(result.is_ok());
}

#[test]
fn settle_breaks_the_sink_on_failure_and_keeps_the_cause() {
    let failure: Result<(), zip::result::ZipError> = Err(zip::result::ZipError::FileNotFound);
    let (state, result) = backupmydevstuff::sink::settle(failure, SinkState::Open);
    assert_eq!(state, SinkState::Broken);
    assert!(matches!(result, Err(SinkError::Writer(zip::result::ZipError::FileNotFound))));
}

#[test]
fn fits_counts_bytes() {
    assert!(backupmydevstuff::sink::fits(""));
    assert!(backupmydevstuff::sink::fits(&"n".repeat(65535)));
    assert!(!backupmydevstuff::sink::fits(&"n".repeat(65536)));
    assert!(backupmydevstuff::sink::fits(&"é".repeat(32767)));
    assert!(!backupmydevstuff::sink::fits(&"é".repeat(32768)));
}

#[test]
fn entries_are_stored_as_declared() {
    let mut sink = ArchiveSink::new();
    let bytes = [b'a'; 40];
    sink.append(&entry("plain", &bytes, Compression::Stored)).unwrap();
    sink.append(&entry("packed", &bytes, Compression::Bzip2)).unwrap();
    let archive = sink.finalize().unwrap();
    let mut reader = zip::ZipArchive::new(Cursor::new(archive)).unwrap();
    assert_eq!(reader.by_name("plain").unwrap().compression(), zip::CompressionMethod::Stored);
    assert_eq!(reader.by_name("packed").unwrap().compression(), zip::CompressionMethod::Bzip2);
}
