//! A single point of a time series.
use vstd::prelude::*;

verus! {

/// A key (time stamp) and the value recorded under it.
#[derive(Clone, Copy, Debug, PartialEq)]
pub struct TimeSeriesDataPoint<TDate, T> {
    pub timestamp: TDate,
    pub value: T,
}

impl<TDate, T> TimeSeriesDataPoint<TDate, T> {
    /// Pairs a time stamp with a value.
    pub fn new(timestamp: TDate, value: T) -> (r: TimeSeriesDataPoint<TDate, T>)
        ensures
            r.timestamp == timestamp,
            r.value == value,
    {
        TimeSeriesDataPoint { timestamp, value }
    }
}

impl<T> TimeSeriesDataPoint<i64, T> {
    /// A point stamped `secs` seconds after the epoch, kept in milliseconds.
    pub fn from_int_stamp(secs: i64, value: T) -> (r: TimeSeriesDataPoint<i64, T>)
        requires
            i64::MIN <= secs * 1000 <= i64::MAX,
        ensures
            r.timestamp == secs * 1000,
            r.value == value,
    {
        TimeSeriesDataPoint { timestamp: secs * 1000, value }
    }
}

} // verus!
