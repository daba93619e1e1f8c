//! Support library for micro-benchmarks that compare two total-order
//! strategies over interchangeable collection backends: the baseline
//! (lexicographic/derived) order, and an alternative order supplied through
//! the alt-order adapter seam.
//!
//! The library's layers, leaves first:
//! - [`parse`] and [`rnd`]: textual seeds, and a seeded, deterministic
//!   pseudo-random source;
//! - [`data`]: dataset generation (an "owned" sequence and a derived
//!   "output" sequence) under a multiplicity constraint, with [`testish`]
//!   as a replaying source for forcing exact datasets;
//! - [`lex`] and [`outish`]: the item orders, the item-order capability,
//!   the output-representation capability, and the collection-backend
//!   capability with its three backends;
//! - [`col`] and [`shared`]: the benchmark bodies that build, sort and
//!   search collections under either order.

pub mod col;
pub mod data;
pub mod lex;
pub mod outish;
pub mod parse;
pub mod rnd;
pub mod shared;
pub mod testish;
