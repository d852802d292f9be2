//! An in-memory tabular store: named databases hold named stores, each store
//! holds records (attribute-to-value maps) keyed by an auto-incrementing id.
//! The value model, the query and sort engine, the SQL script generation and
//! the JSON persistence codec are verified.

use vstd::prelude::*;

pub mod database;
pub mod digits;
pub mod infer;
pub mod json;
pub mod query;
pub mod record;
pub mod sql;
pub mod store;
pub mod value;

verus! {

/// The failures the record engine reports to its callers.
#[derive(Clone, Copy, Debug, PartialEq, Eq, Structural)]
pub enum Error {
    /// A record or store was looked up by an id or name that is absent.
    NotFound,
    /// A filter named an attribute the store has never declared.
    AttributeNotFound,
    /// Paired inputs differ in length.
    InvalidInput,
    /// Persisted text does not have the expected JSON shape.
    DeserializationError,
}

} // verus!
