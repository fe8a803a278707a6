//! The crate's error taxonomy. Messages are diagnostic only; the variants
//! are the stable part.

use vstd::prelude::*;

verus! {

/// Everything the hash engine and the impact analyzer can fail with.
#[derive(Debug, Clone, PartialEq, Eq)]
pub enum DiffError {
    /// Mutually-exclusive options, missing required files, bad command form.
    ConfigInvalid(String),
    /// Open, read or write failure; carries the offending path.
    IoError(String),
    /// The graph snapshot byte stream could not be decoded.
    SnapshotDecodeError,
    /// The build-tool collaborator exited with a disallowed status.
    SubprocessFailed(String),
    /// A cycle among rule inputs; carries the traversal stack.
    CircularDependency(Vec<String>),
    /// A generated file references an unknown rule.
    MissingGeneratingRule(String),
    /// A type filter was requested but a hash lacks the `kind#` prefix.
    MissingTargetType(String),
    /// A label classified as indirectly impacted has no dep-edges entry.
    IndirectWithoutDepGraph(String),
    /// A label classified as indirectly impacted has no impacted dependency.
    IndirectWithoutImpactedDep(String),
    /// The distance computation encountered a cycle.
    CycleInImpactGraph(String),
    /// A target-hash string was empty or otherwise malformed.
    InvalidTargetHash(String),
}

} // verus!
