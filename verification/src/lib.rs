//! Dependency composition engine for binary components described by an
//! interface-definition language: candidate components are decoded into
//! capability graphs, their import-only worlds are merged into a persisted
//! aggregate descriptor without duplicates or identifier collisions, and the
//! merged descriptor is projected into ecosystem-specific binding artifacts.

use vstd::prelude::*;

pub mod bindings;
pub mod bytes;
pub mod descriptor;
pub mod graph;
pub mod manifest;
pub mod merge;
pub mod name;
pub mod paths;
pub mod select;
pub mod source;
pub mod wellknown;

verus! {

/// Why an invocation of the composition pipeline failed. Every error is
/// fatal to the current invocation; nothing is retried.
#[derive(Debug)]
pub enum DepsError {
    /// The input bytes fail validation or decoding as a binary component,
    /// or a persisted descriptor cannot be selected from.
    InvalidComponent { detail: Vec<u8> },
    /// The candidate component exports nothing importable.
    NoExportedInterfaces,
    /// Two same-named entities with structurally incompatible shapes met
    /// during a merge; the offending qualified name is carried.
    CompositionConflict { qname: Vec<u8> },
    /// The component's build directory matches no recognized ecosystem.
    UnknownBuildEcosystem { detail: Vec<u8> },
    /// The target component id is absent from the build manifest.
    ManifestComponentNotFound { component: Vec<u8> },
    /// Fetched content failed its integrity check.
    DigestMismatch { expected: Vec<u8>, actual: Vec<u8> },
    /// A file operation failed; the detail comes from the caller.
    IoFailure { detail: Vec<u8> },
}

} // verus!
