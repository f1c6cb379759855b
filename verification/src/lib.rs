//! A small file-backed relational storage engine.
//!
//! Tables hold fixed-schema rows of typed scalar values.  Rows are stored in
//! an append-only record format with tombstone-based deletion; the catalog of
//! table schemas is kept in a line-oriented text form.  All state handled here
//! is in memory: the surrounding application reads table files into byte
//! vectors and writes them back, while every rule of the engine — the value
//! codec, coercion, predicate evaluation, projection, mutation and the
//! catalog operations — is verified in this crate.

pub mod bignat;
pub mod database;
pub mod float_bits;
pub mod schema;
pub mod table;
pub mod text;
pub mod types;
