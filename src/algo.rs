//! Comparator strategies for the as-of merge.
pub mod int_utils;
