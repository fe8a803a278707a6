//! Content-addressed fingerprints for build-graph nodes, and impact analysis
//! over two fingerprint sets.
//!
//! The crate computes a deterministic 256-bit digest for every rule, source
//! file and generated file of a build-graph snapshot, and, given two such
//! digest maps, reports which labels changed together with their distance
//! from a directly-changed node.

use vstd::prelude::*;

pub mod bazel;
pub mod digest;
pub mod driver;
pub mod engine;
pub mod errors;
pub mod graph;
pub mod impact;
pub mod jsonio;
pub mod labels;
pub mod models;
pub mod smap;
pub mod source_hash;
pub mod strutil;

pub use digest::DigestBuilder;
pub use digest::TargetDigest;
pub use driver::generate_hashes;
pub use driver::GenerateHashesConfig;
pub use engine::GenerateHashesResult;
pub use errors::DiffError;
pub use impact::compute_impacted_targets;
pub use impact::get_impacted_targets;
pub use models::DependencyEdges;
pub use models::ImpactedTargetDistance;
pub use models::ImpactedTargetsResult;
pub use models::TargetHash;
pub use models::TargetHashes;

verus! {

/// A short label that shows the library linked correctly.
pub fn status() -> (r: &'static str)
    ensures
        r@ == "bazel-differrous ready"@,
{
    "bazel-differrous ready"
}

/// The crate version, for diagnostics.
pub fn version() -> (r: &'static str)
    ensures
        r@ == "0.1.0"@,
{
    "0.1.0"
}

} // verus!
