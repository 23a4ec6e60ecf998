//! An embeddable, transactional record cache: structured records conforming to
//! versioned schemas, one or more secondary indexes per schema, and
//! index-backed filtered queries.
//!
//! The engine keeps four sub-stores that always move together: the primary
//! record store (internal id to record), the primary-key index (caller lookup
//! key to internal id), the schema catalog (versioned schemas and a
//! name-based reverse lookup, in disjoint byte-key namespaces of one store),
//! and one sorted sub-store per declared secondary index.  Every mutating
//! operation either fully applies or leaves the engine unchanged.

pub mod catalog;
pub mod engine;
pub mod errors;
pub mod index;
pub mod indexer;
pub mod keys;
pub mod registry;
pub mod order;
pub mod query;
pub mod types;

pub use errors::CacheError;
pub use types::{FieldDefinition, FieldType, FieldValue, IndexDefinition, Record, Schema, SchemaIdentifier};
