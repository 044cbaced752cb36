//! Verified core of a benchmark plotting pipeline.
//!
//! The library ingests the on-disk records of a statistical benchmarking
//! harness and rearranges them into named traces of throughput measurements,
//! ready to be drawn as a chart.  Directory filtering, record reconciliation,
//! trace aggregation and the presentation orderings are verified here; file
//! reading, JSON decoding and the drawing backend live with the callers.

pub mod criterion;
pub mod error;
pub mod filter;
pub mod order;
pub mod text;
pub mod trace;

pub use criterion::{split_throughput, Throughput, ThroughputType};
