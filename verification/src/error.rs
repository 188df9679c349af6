//! Failure taxonomy of the ingestion engine.

use vstd::prelude::*;

verus! {

/// Why a worker aborted. External-call failures and missing index
/// rows are fatal to the worker that hits them and are surfaced to
/// the orchestrator; they are never retried and never swallowed.
#[derive(Clone, Copy, Debug, PartialEq, Eq, Structural)]
pub enum IngestError {
    /// The catalog could not resolve the works of this contributor
    /// (identified by external id).
    CatalogFailure { person: i64 },
    /// A dense index inside a worker's range had no contributor row:
    /// a partitioning / seed-data inconsistency.
    MissingPerson { index: i64 },
}

} // verus!
