//! Point-in-time network-interface throughput reporting.
//!
//! The crate reads the kernel's textual per-interface counter table,
//! diffs it against a previously persisted snapshot, and renders the
//! per-device byte and bit rates over the elapsed interval.

use vstd::prelude::*;

pub mod digits;
pub mod rate;
pub mod reader;
pub mod render;
pub mod scale;
pub mod stats;
pub mod store;

verus! {

/// Everything that can go wrong in the snapshot-diff-rate pipeline.
#[derive(Debug, Clone, Copy, PartialEq, Eq, Structural)]
pub enum Error {
    /// The live statistics source could not be opened or read.
    SourceUnavailable,
    /// A line of the statistics source is structurally invalid.
    MalformedLine,
    /// The history file is unreadable or structurally invalid.
    CorruptStore,
    /// The history file could not be created, written or flushed.
    StoreWriteFailure,
    /// The interval between two snapshots came out negative.
    NegativeInterval,
}

} // verus!
