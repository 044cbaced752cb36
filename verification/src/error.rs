//! The fatal conditions that the pipeline can report.

use crate::criterion::ThroughputType;
use vstd::prelude::*;

verus! {

/// Everything that can go wrong while ingesting records or building traces.
///
/// All of these are fatal: callers surface them and stop.
#[derive(Clone, Copy, Debug, PartialEq, Eq, Structural)]
pub enum Error {
    /// A data file at record depth is neither metadata nor statistics.
    UnsupportedFile,
    /// A benchmark directory contributed a metadata record or a statistics
    /// record, but not both.
    MissingCompanion,
    /// The group name recovered from a directory name does not equal the
    /// recorded group identifier.
    GroupNameMismatch,
    /// A recorded group identifier does not match the user regex even though
    /// its directory name does.
    RegexGroupMismatch,
    /// A per-point label could not be read as a non-negative integer.
    ValueNotInteger,
    /// An estimate's confidence level is not the expected 0.95.
    ConfidenceLevelMismatch,
    /// Two records map to the same problem size within one trace.
    DuplicatePoint { value: usize },
    /// Input records carry more than one throughput discriminant.
    MixedThroughput { expected: ThroughputType, found: ThroughputType },
    /// The user regex selected no trace at all.
    EmptySelection,
}

} // verus!
