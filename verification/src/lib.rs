//! An append-only builder for CONCISE bitmaps: word-aligned, run-length
//! compressed sets of non-negative integers that arrive in ascending order.
pub mod word;
pub mod model;
pub mod merge;
pub mod roundtrip;
pub mod bitmap;

pub use bitmap::{CONCISE, Cardinality, AppendError};
