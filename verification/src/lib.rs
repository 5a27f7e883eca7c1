//! Packs a directory tree into one compressed archive, leaving out build
//! output and whatever a directory's ignore rules exclude.
//!
//! The library decides and records; it reads no file and starts no thread.
//! A caller looks up in the file system what a [`traversal::Traversal`] asks
//! for, with as many workers as it likes, and hands back what it found:
//!
//! - [`exclusion`] decides which entries of a directory are processed, from
//!   its ignore rules or, failing those, from its project markers;
//! - [`sink`] is the archive: entries go in whole and one at a time, and the
//!   finished archive comes out once;
//! - [`traversal`] is the walk: it queues work, takes in answers, archives
//!   files and stops at the first failure;
//! - [`orchestrator`] frames a run: which arguments are accepted, where the
//!   archive is built, and how the run ends;
//! - [`paths`] handles paths as text;
//! - [`tree`] and [`laws`] state and prove what every walk does: it archives
//!   each file that is not excluded exactly once, whatever the order of the
//!   work.

pub mod exclusion;
pub mod laws;
pub mod orchestrator;
pub mod paths;
pub mod sink;
pub mod traversal;
pub mod tree;
