//! A verified core for a desktop activity logger.
//!
//! The library covers the two algorithms that carry the interesting
//! invariants of such a logger: the *session stitcher*, which turns
//! repeated point-in-time window snapshots into contiguous labeled
//! intervals without duplicating rows, and the *report bucketizer*,
//! which maps stored intervals onto a fixed grid of time buckets while
//! keeping a stable left-to-right column order across consecutive rows.
//! Window enumeration, SQLite persistence and settings files live
//! outside the library; it exchanges plain values with them.

pub mod report;
pub mod session;
pub mod settings;
pub mod stitcher;
pub mod store;
pub mod text;
pub mod timeparse;
