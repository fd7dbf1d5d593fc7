//! Verified core of a telemetry logger for NT4-style topic streams.
//!
//! The crate has two tightly coupled parts:
//!
//! - [`log_store`]: a per-topic time-series store.  Each topic holds one
//!   fixed kind of value (doubles are carried as their IEEE-754 bit
//!   patterns), an append-only series of `(timestamp, value)` samples with
//!   write coalescing, and a point-in-time lookup that binary-searches for
//!   the sample in effect at a query time.  A generation counter lets a
//!   stale background writer detect that the store was cleared under it.
//! - [`schema`]: a registry of named struct layouts parsed from
//!   `"type name; type name;"` definition strings, and a decoder that walks
//!   a little-endian binary record against a schema, recursing into nested
//!   schemas and flattening field paths with `/`.
//!
//! [`ingest`] combines the two: it routes schema-definition topics into the
//! registry and fans a struct-typed payload out into one flattened topic
//! update per decoded field.

pub mod alist;
pub mod float_bits;
pub mod ingest;
pub mod log_store;
pub mod schema;
pub mod strutil;
