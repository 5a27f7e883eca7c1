//! What holds of every walk, proved over the tree model.
//!
//! `balance` shows that a walk archives exactly the files that entering its
//! root leads to, in whatever order the work is done, and that a failure is
//! final. `batches` shows that work done in batches is such a walk. `shape`
//! shows that no file is archived twice and that a walk fails on no step of
//! its own. `rules` shows what ignore rules and project markers leave out.
//! `removal` shows that an unusable rule file counts as none.

pub mod balance;
pub mod batches;
pub mod removal;
pub mod rules;
pub mod shape;
