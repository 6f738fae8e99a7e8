//! A generic container for ordered, key-indexed sequences of values ("time series"),
//! with alignment, joins, resampling and windowed aggregation.
//!
//! Keys are `i64` stamps (for calendar data: milliseconds since the epoch); values
//! are of any `Copy` type.
pub mod algo;
pub mod data_elements;
pub mod index;
pub mod joins;
pub mod timeseries;
pub mod timeseries_iterators;
pub mod timeutils;
