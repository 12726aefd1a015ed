//! An in-memory document store: named containers of JSON-like entities,
//! each kept under a unique identifier.
//!
//! Queries and deletes select entities by a flat predicate object. A
//! predicate naming `uid` alone is a look-up by identifier; any other
//! non-empty predicate selects the entities that have a field of each name
//! it holds, whatever the values (see `container::matches`).

pub mod value;
pub mod container;
pub mod ident;
pub mod store;
pub mod laws;
