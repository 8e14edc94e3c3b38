//! Keys, values and schemas of an ordered, schema-aware key-value store.
//!
//! The crate holds the layer that every other part of such a store leans on:
//! what a key is, how keys are ordered (floating-point keys by a total order
//! on their bit patterns, composite keys column by column), how keys, values
//! and range bounds are laid out in bytes, and how a table declared at run
//! time is mapped to its physical columns and sort order.
//!
//! Nothing here reads or writes: bytes are appended to a `Vec<u8>` and read
//! from a slice. Every function states what it returns over a mathematical
//! model of its arguments, and the laws that the store relies on (what was
//! encoded is decoded again, the orders are total, equal keys hash alike)
//! are proved as `lemma_` functions beside the definitions they speak of.

pub mod record;
pub mod serdes;
pub mod service;
