//! Time spans with nanosecond resolution.

use vstd::prelude::*;

verus! {

/// A span of time, counted in whole nanoseconds.
#[derive(Debug, Clone, Copy, PartialEq, Eq, Structural, Hash)]
pub struct Duration {
    pub nanos: u64,
}

impl Duration {
    /// The span of `nanos` nanoseconds.
    pub fn from_nanos(nanos: u64) -> (duration: Duration)
        ensures
            duration == (Duration { nanos }),
    {
        Duration { nanos }
    }

    /// The number of nanoseconds in the span.
    pub fn as_nanos(&self) -> (nanos: u64)
        ensures
            nanos == self.nanos,
    {
        self.nanos
    }
}

} // verus!
