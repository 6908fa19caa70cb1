//! The reading that a series is made of.

use vstd::prelude::*;

verus! {

/// One reading. The value is held as its raw IEEE-754 binary64 bit pattern, so two points are
/// equal exactly when they are the same bit for bit: a not-a-number equals itself, and negative
/// zero differs from zero.
#[derive(Clone, Copy, Debug, PartialEq, Eq, Structural)]
pub struct Point {
    /// When the reading was taken, in whatever unit the series counts.
    pub timestamp: i64,
    /// The bit pattern of the reading.
    pub value: u64,
}

impl Point {
    /// The reading with bit pattern `value` at `timestamp`.
    pub fn new(timestamp: i64, value: u64) -> (point: Point)
        ensures
            point.timestamp == timestamp,
            point.value == value,
    {
        Point { timestamp, value }
    }
}

} // verus!
