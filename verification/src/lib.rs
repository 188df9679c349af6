//! Core of a co-occurrence graph ingester: a universe of contributor
//! indices is split into disjoint ranges, each range is walked by one
//! worker that derives all-pairs edges among the works of each
//! contributor, and the edges are written idempotently to a store.
//!
//! The modules here hold the partitioning, the edge derivation, the
//! store's conflict semantics, the worker and orchestrator logic, and
//! the progress accounting. The surrounding process (HTTP catalog
//! calls, the relational store, the async runtime) lives outside this
//! library and hands plain values in and out.

pub mod catalog;
pub mod derive;
pub mod error;
pub mod orchestrate;
pub mod partition;
pub mod progress;
pub mod store;
pub mod worker;

pub use partition::IndexRange;
