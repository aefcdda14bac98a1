//! Metrics for Stacks chain state: a CSV log of `at-block` invocations, and a
//! measurement of the space that Clarity `none` values take in MARF storage.
//!
//! The MARF (Merklized Adaptive Radix Forest) stores Clarity `none` values
//! explicitly rather than treating them as absent entries. The measurement
//! searches trie blobs for leaf nodes and counts those that hold the none-value,
//! together with the space that they take.

pub mod at_block_tracker;
pub mod blocks;
pub mod csv;
pub mod none_value;
pub mod queries;
pub mod report;
pub mod stats;
pub mod stats_laws;
pub mod text;
pub mod tracker_laws;
pub mod trie;
pub mod trie_laws;
