//! A minimal log-structured key-value storage core.
//!
//! The store maps arbitrary byte-string keys to byte-string values, kept in
//! ascending lexicographic key order.  Deletion is soft: `delete` overwrites
//! the entry with a tombstone marker, which remains visible to `get` and
//! `range` until a separate `compact` pass erases it.  Every operation is
//! specified against a mathematical model (an ordered sequence of entries and
//! the finite map it induces) and verified.
//!
//! Alongside the store, `animals` carries a self-contained exercise in
//! verified trait dispatch, unrelated to the storage core.

pub mod animals;
pub mod laws;
pub mod order;
pub mod store;
