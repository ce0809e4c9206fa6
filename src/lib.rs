//! Log compaction and snapshot merging core of a replicated database.
//!
//! The library holds the decisions: how snapshot files are named, how a
//! stream of frames folds into a snapshot, when snapshots are merged, which
//! snapshot serves a frame, and in which order pending logs are compacted.
//! Reading and writing files is left to the caller.

pub mod naming;
pub mod builder;
pub mod merger;
pub mod lookup;
pub mod compactor;
pub mod codec;
