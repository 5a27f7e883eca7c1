//! The archive that entries are appended to.
//!
//! An `ArchiveSink` owns one zip writer over a stream held in memory. Entries
//! are appended whole, one after the other; finalizing hands out the bytes of
//! the finished archive. A sink that was finalized, or on which a write
//! failed, refuses every further request.
//!
//! Every request takes the sink by exclusive reference, so that at most one
//! is under way at any moment: callers that share a sink take turns, and the
//! bytes of two entries never mix.

use std::io::Cursor;
use std::io::Write;
use vstd::prelude::*;
use vstd::utf8::encode_utf8;
use zip::result::ZipError;
use zip::write::FileOptions;
use zip::CompressionMethod;
use zip::ZipWriter;

verus! {

#[verifier::external_type_specification]
#[verifier::external_body]
pub struct ExZipError(ZipError);

/// A zip writer over a stream held in memory.
#[verifier::external_body]
pub struct ZipStream {
    inner: ZipWriter<Cursor<Vec<u8>>>,
}

/// The file names of the entries that a zip writer holds, in the order in
/// which they were started.
pub uninterp spec fn held_names(writer: ZipStream) -> Seq<Seq<char>>;

/// How many bytes a zip writer has taken into the entry that it started last.
pub uninterp spec fn written_count(writer: ZipStream) -> nat;

/// What a zip writer becomes when an entry is started on it under `name`, to
/// be stored as `method` says: the writer with the entry started, or `None`
/// where it refuses. The stream is in memory and the entry carries no time,
/// so that the writer and the two arguments decide.
pub uninterp spec fn started(writer: ZipStream, name: Seq<char>, method: Compression) -> Option<
    ZipStream,
>;

/// Whether a zip writer takes `bytes` into the entry that it started last.
pub uninterp spec fn takes_bytes(writer: ZipStream, bytes: Seq<u8>) -> bool;

/// The bytes of the archive that finishing a zip writer gives, or `None`
/// where finishing fails.
pub uninterp spec fn finished_image(writer: ZipStream) -> Option<Seq<u8>>;

/// How the bytes of an entry are stored.
#[derive(Clone, Copy, Debug, PartialEq, Eq, Structural)]
pub enum Compression {
    /// As they are.
    Stored,
    /// Compressed with bzip2.
    Bzip2,
}

/// One file of the archive: its name, which is a path relative to the root
/// of the archive, its bytes, and how they are stored.
#[derive(Debug)]
pub struct ArchiveEntry {
    pub name: String,
    pub bytes: Vec<u8>,
    pub method: Compression,
}

/// `ArchiveEntry` over sequences.
pub struct EntryView {
    pub name: Seq<char>,
    pub bytes: Seq<u8>,
    pub method: Compression,
}

impl View for ArchiveEntry {
    type V = EntryView;

    open spec fn view(&self) -> EntryView {
        EntryView { name: self.name@, bytes: self.bytes@, method: self.method }
    }
}

/// Where a sink stands in its life.
#[derive(Clone, Copy, Debug, PartialEq, Eq, Structural)]
pub enum SinkState {
    /// Entries can be appended.
    Open,
    /// The archive is complete and was handed out.
    Finalized,
    /// A write failed; what the archive holds is unknown.
    Broken,
}

/// Why a sink refused a request.
#[derive(Debug)]
pub enum SinkError {
    /// The sink was finalized before.
    Finalized,
    /// An earlier request failed in the writer.
    Broken,
    /// The entry's name is longer than an archive can record.
    NameTooLong,
    /// The writer failed on this request.
    Writer(ZipError),
}

/// The longest entry name, in bytes, that an archive records in full.
pub open spec fn name_limit() -> nat {
    65535
}

/// Whether an archive records `name` in full.
pub open spec fn name_fits(name: Seq<char>) -> bool {
    encode_utf8(name).len() <= name_limit()
}

/// Whether a zip writer takes `entry` whole: it starts the entry and then
/// takes its bytes.
pub open spec fn takes(writer: ZipStream, entry: EntryView) -> bool {
    match started(writer, entry.name, entry.method) {
        Some(ready) => takes_bytes(ready, entry.bytes),
        None => false,
    }
}

/// The names of `entries`, in order.
pub open spec fn names_of(entries: Seq<EntryView>) -> Seq<Seq<char>> {
    entries.map_values(|entry: EntryView| entry.name)
}

/// `ZipWriter::new` on an empty in-memory stream. The new writer holds no
/// entry.
#[verifier::external_body]
fn open_writer() -> (writer: ZipStream)
    ensures
        held_names(writer) == Seq::<Seq<char>>::empty(),
{
    ZipStream { inner: ZipWriter::new(Cursor::new(Vec::new())) }
}

/// `ZipWriter::start_file`, with the default `FileOptions` but for the
/// compression method, which is the one that `method` names. Whether it
/// succeeds, and what the writer then is, is what `started` names. Where it
/// succeeds, the writer holds one more entry, last, under exactly the name
/// given, and no byte of it yet. Nothing is claimed of a writer on which it
/// failed.
#[verifier::external_body]
fn start_file(
    writer: &mut ZipStream,
    name: &str,
    method: Compression,
) -> (outcome: Result<(), ZipError>)
    ensures
        match outcome {
            Ok(()) => started(*old(writer), name@, method) == Some(*final(writer)),
            Err(_) => started(*old(writer), name@, method) is None,
        },
        outcome is Ok ==> held_names(*final(writer)) == held_names(*old(writer)).push(name@),
        outcome is Ok ==> written_count(*final(writer)) == 0,
{
    let method = match method {
        Compression::Stored => CompressionMethod::Stored,
        Compression::Bzip2 => CompressionMethod::Bzip2,
    };
    writer.inner.start_file(name, FileOptions::default().compression_method(method))
}

/// `Write::write_all` on the writer: the bytes go to the entry started last.
/// Whether it succeeds is what `takes_bytes` names; where it does, the entry
/// has as many bytes more as were given. Writing starts no entry and renames
/// none, whether it succeeds or fails.
#[verifier::external_body]
fn write_payload(writer: &mut ZipStream, bytes: &[u8]) -> (written: Result<
    (),
    ZipError,
>)
    ensures
        written is Ok <==> takes_bytes(*old(writer), bytes@),
        written is Ok ==> written_count(*final(writer)) == written_count(*old(writer))
            + bytes@.len(),
        held_names(*final(writer)) == held_names(*old(writer)),
{
    writer.inner.write_all(bytes).map_err(ZipError::from)
}

/// `ZipWriter::finish`, which completes the archive and gives back the
/// stream, here as its bytes. Whether it succeeds, and with which bytes, is
/// what `finished_image` names. Finishing starts no entry and renames none.
#[verifier::external_body]
fn finish_writer(writer: &mut ZipStream) -> (finished: Result<Vec<u8>, ZipError>)
    ensures
        match finished {
            Ok(bytes) => finished_image(*old(writer)) == Some(bytes@),
            Err(_) => finished_image(*old(writer)) is None,
        },
        held_names(*final(writer)) == held_names(*old(writer)),
{
    writer.inner.finish().map(Cursor::into_inner)
}

/// Writes one entry, header then bytes. It succeeds exactly where the writer
/// takes the entry; the writer then holds it last, under its name and with
/// as many bytes as it has.
fn write_entry(writer: &mut ZipStream, entry: &ArchiveEntry) -> (written: Result<
    (),
    ZipError,
>)
    ensures
        written is Ok <==> takes(*old(writer), entry@),
        written is Ok ==> held_names(*final(writer)) == held_names(*old(writer)).push(
            entry@.name,
        ),
        written is Ok ==> written_count(*final(writer)) == entry@.bytes.len(),
{
    match start_file(writer, entry.name.as_str(), entry.method) {
        Ok(()) => write_payload(writer, entry.bytes.as_slice()),
        Err(error) => Err(error),
    }
}

/// What becomes of a sink and of a request once the writer has answered: on
/// success the sink goes to `reached` and the request yields the writer's
/// value; on failure the sink is broken and the request fails with the
/// writer's error.
pub fn settle<T>(outcome: Result<T, ZipError>, reached: SinkState) -> (verdict: (
    SinkState,
    Result<T, SinkError>,
))
    ensures
        verdict == match outcome {
            Ok(value) => (reached, Ok::<T, SinkError>(value)),
            Err(error) => (SinkState::Broken, Err::<T, SinkError>(SinkError::Writer(error))),
        },
{
    match outcome {
        Ok(value) => (reached, Ok(value)),
        Err(error) => (SinkState::Broken, Err(SinkError::Writer(error))),
    }
}

/// Tells whether an archive records `name` in full.
pub fn fits(name: &str) -> (yes: bool)
    ensures
        yes == name_fits(name@),
{
    name.as_bytes().len() <= 65535
}

/// A zip archive under construction.
pub struct ArchiveSink {
    writer: ZipStream,
    state: SinkState,
    written: Ghost<Seq<EntryView>>,
}

impl ArchiveSink {
    /// Where the sink stands in its life.
    pub closed spec fn state(&self) -> SinkState {
        self.state
    }

    /// The entries appended so far, in order.
    pub closed spec fn entries(&self) -> Seq<EntryView> {
        self.written@
    }

    /// The names of the entries that the zip writer holds, in order.
    pub closed spec fn archived_names(&self) -> Seq<Seq<char>> {
        held_names(self.writer)
    }

    /// Whether the zip writer, as it stands, takes `entry`.
    pub closed spec fn willing(&self, entry: EntryView) -> bool {
        takes(self.writer, entry)
    }

    /// The bytes that finishing the zip writer, as it stands, gives; `None`
    /// where finishing fails.
    pub closed spec fn image(&self) -> Option<Seq<u8>> {
        finished_image(self.writer)
    }

    /// How many bytes the zip writer has taken into its last entry.
    pub closed spec fn last_size(&self) -> nat {
        written_count(self.writer)
    }

    /// Unless a write failed, the zip writer holds exactly the entries that
    /// were appended, under their names and in their order.
    pub open spec fn wf(&self) -> bool {
        self.state() != SinkState::Broken ==> self.archived_names() == names_of(self.entries())
    }

    /// Opens a sink that holds no entry.
    pub fn new() -> (sink: ArchiveSink)
        ensures
            sink.wf(),
            sink.state() == SinkState::Open,
            sink.entries() == Seq::<EntryView>::empty(),
    {
        let sink = ArchiveSink {
            writer: open_writer(),
            state: SinkState::Open,
            written: Ghost(Seq::empty()),
        };
        assert(names_of(sink.written@) =~= Seq::<Seq<char>>::empty());
        sink
    }

    /// Reports where the sink stands in its life.
    pub fn status(&self) -> (state: SinkState)
        ensures
            state == self.state(),
    {
        self.state
    }

    /// Appends one entry as a whole. This succeeds exactly on an open sink,
    /// with an entry whose name fits and which the zip writer takes; the
    /// writer then holds the entry last, with all its bytes. An entry that
    /// the writer does not take breaks the sink. Any other sink, and an entry
    /// whose name does not fit, is refused with nothing written.
    pub fn append(&mut self, entry: &ArchiveEntry) -> (result: Result<(), SinkError>)
        requires
            old(self).wf(),
        ensures
            final(self).wf(),
            result is Ok <==> old(self).state() == SinkState::Open && name_fits(entry@.name)
                && old(self).willing(entry@),
            match result {
                Ok(()) => {
                    &&& old(self).state() == SinkState::Open
                    &&& name_fits(entry@.name)
                    &&& final(self).state() == SinkState::Open
                    &&& final(self).entries() == old(self).entries().push(entry@)
                    &&& final(self).last_size() == entry@.bytes.len()
                },
                Err(SinkError::Finalized) => {
                    &&& old(self).state() == SinkState::Finalized
                    &&& final(self).state() == SinkState::Finalized
                    &&& final(self).entries() == old(self).entries()
                },
                Err(SinkError::Broken) => {
                    &&& old(self).state() == SinkState::Broken
                    &&& final(self).state() == SinkState::Broken
                    &&& final(self).entries() == old(self).entries()
                },
                Err(SinkError::NameTooLong) => {
                    &&& old(self).state() == SinkState::Open
                    &&& !name_fits(entry@.name)
                    &&& final(self).state() == SinkState::Open
                    &&& final(self).entries() == old(self).entries()
                },
                Err(SinkError::Writer(_)) => {
                    &&& old(self).state() == SinkState::Open
                    &&& name_fits(entry@.name)
                    &&& !old(self).willing(entry@)
                    &&& final(self).state() == SinkState::Broken
                    &&& final(self).entries() == old(self).entries()
                },
            },
    {
        match self.state {
            SinkState::Finalized => {
                return Err(SinkError::Finalized);
            },
            SinkState::Broken => {
                return Err(SinkError::Broken);
            },
            SinkState::Open => {},
        }
        if !fits(entry.name.as_str()) {
            return Err(SinkError::NameTooLong);
        }
        let outcome = write_entry(&mut self.writer, entry);
        let (state, result) = settle(outcome, SinkState::Open);
        self.state = state;
        if result.is_ok() {
            self.written = Ghost(self.written@.push(entry@));
            assert(names_of(self.written@) =~= names_of(old(self).written@).push(entry@.name));
        }
        result
    }

    /// Completes the archive and hands out its bytes: the image of the
    /// sink. This succeeds exactly on an open sink that has an image, and
    /// so only once; an open sink without one is broken by the attempt.
    pub fn finalize(&mut self) -> (result: Result<Vec<u8>, SinkError>)
        requires
            old(self).wf(),
        ensures
            final(self).wf(),
            final(self).entries() == old(self).entries(),
            result is Ok <==> old(self).state() == SinkState::Open && old(self).image() is Some,
            match result {
                Ok(bytes) => {
                    &&& old(self).state() == SinkState::Open
                    &&& old(self).image() == Some(bytes@)
                    &&& final(self).state() == SinkState::Finalized
                },
                Err(SinkError::Finalized) => {
                    &&& old(self).state() == SinkState::Finalized
                    &&& final(self).state() == SinkState::Finalized
                },
                Err(SinkError::Broken) => {
                    &&& old(self).state() == SinkState::Broken
                    &&& final(self).state() == SinkState::Broken
                },
                Err(SinkError::Writer(_)) => {
                    &&& old(self).state() == SinkState::Open
                    &&& old(self).image() is None
                    &&& final(self).state() == SinkState::Broken
                },
                Err(SinkError::NameTooLong) => false,
            },
    {
        match self.state {
            SinkState::Finalized => {
                return Err(SinkError::Finalized);
            },
            SinkState::Broken => {
                return Err(SinkError::Broken);
            },
            SinkState::Open => {},
        }
        let outcome = finish_writer(&mut self.writer);
        let (state, result) = settle(outcome, SinkState::Finalized);
        self.state = state;
        result
    }
}

} // verus!
