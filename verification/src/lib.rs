//! A sequential map/reduce pipeline over text.
//!
//! The pipeline splits an input text into line-aligned chunks, applies a
//! mapping function to each chunk to obtain key/value pairs, routes each pair
//! to one of `nreduce` partitions by a deterministic hash of its key, groups
//! and reduces each partition in key order, and merges the partition outputs
//! into one result sorted by key. Every phase is a pure function from text to
//! text; reading and writing the files that carry the phase boundaries is left
//! to the caller.

pub mod chars;
pub mod group;
pub mod hasher;
pub mod kv;
pub mod laws;
pub mod names;
pub mod num;
pub mod order;
pub mod pipeline;
pub mod text;
pub mod wordcount;
