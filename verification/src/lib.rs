//! In-memory enrichment tables: a registry of named tables with prebuilt
//! equality indexes, and a freely shareable read-only query engine.
//!
//! A pipeline loads its reference tables once, requests an index for every
//! (table, field set, case rule) combination its call sites will query,
//! and then freezes the registry.  From that point on, arbitrarily many
//! read-only handles answer per-record lookups, applying case folding,
//! wildcard fallback and column projection.
use vstd::prelude::*;

pub mod bridge;
pub mod index;
pub mod laws;
pub mod query;
pub mod registry;
pub mod scalar;
pub mod seek;
pub mod table;

verus! {

/// Every failure this library reports, as a closed enumeration.
#[derive(Clone, Copy, Debug, PartialEq, Eq, Structural)]
pub enum Error {
    /// A mutating call reached the registry after it was frozen.
    LifecycleError,
    /// The named table is not registered.
    UnknownTable,
    /// A table of that name is already registered.
    DuplicateTable,
    /// A query was issued through a handle taken before the registry froze.
    TableNotLoaded,
    /// A condition value's kind cannot be compared with the row's kind.
    ConditionTypeMismatch,
    /// A selected column is not part of the table's schema.
    SelectFieldMissing,
    /// An index handle does not cover the query's exact field set.
    IndexTableMismatch,
    /// A value handed over by the calling expression had the wrong shape.
    EvaluationError,
}

} // verus!
