//! Typed access to hierarchical (`ltree`) data in PostgreSQL: the binary
//! encoding of a label path for parameter binding, and the mapping of untyped
//! result rows to typed records.

pub mod error;
pub mod hstore;
pub mod label;
pub mod path;
pub mod pg;
pub mod query;
pub mod record;
pub mod row;
pub mod text;
