//! Parallel-friendly aggregation of `key;value` measurement records into
//! per-key minimum, mean and maximum, with fixed-point values in tenths.

pub mod engine;
pub mod error;
pub mod partition;
pub mod render;
pub mod report;
pub mod scan;
pub mod station;
pub mod table;
pub mod value;
