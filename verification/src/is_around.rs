//! Matching a measured duration against a nominal one, within a relative
//! error margin.

use crate::duration::Duration;
use vstd::prelude::*;

verus! {

/// Whether `measured` lies in the closed interval from
/// `nominal * (1 - percent / 100)` to `nominal * (1 + percent / 100)`.
///
/// Both sides are scaled by 100 so that the comparison is exact.
pub open spec fn within_margin(measured: int, nominal: int, percent: int) -> bool {
    nominal * (100 - percent) <= 100 * measured <= nominal * (100 + percent)
}

pub trait IsAround: Sized {
    /// The tolerance window of `other`, with the error margin in percent.
    spec fn around(&self, other: Self, error_percent: u32) -> bool;

    /// Reports whether `self` falls in the tolerance window of `other`.
    fn is_around(&self, other: Self, error_percent: u32) -> (inside: bool)
        ensures
            inside == self.around(other, error_percent),
    ;
}

impl IsAround for Duration {
    open spec fn around(&self, other: Self, error_percent: u32) -> bool {
        within_margin(self.nanos as int, other.nanos as int, error_percent as int)
    }

    fn is_around(&self, other: Self, error_percent: u32) -> (inside: bool) {
        let measured: u128 = 100 * (self.nanos as u128);
        let nominal: u128 = other.nanos as u128;
        let percent: u128 = error_percent as u128;
        assert(nominal * (100 + percent) <= 0x1_0000_0000_0000_0000 * 0x2_0000_0000) by (
            nonlinear_arith
        )
            requires
                nominal < 0x1_0000_0000_0000_0000,
                percent < 0x1_0000_0000,
        ;
        let upper: u128 = nominal * (100 + percent);
        if percent >= 100 {
            assert(nominal * (100 - percent) <= 0) by (nonlinear_arith)
                requires
                    nominal >= 0,
                    percent >= 100,
            ;
            measured <= upper
        } else {
            assert(nominal * (100 - percent) <= 0x1_0000_0000_0000_0000 * 100) by (nonlinear_arith)
                requires
                    0 <= nominal < 0x1_0000_0000_0000_0000,
                    0 <= percent < 100,
            ;
            let lower: u128 = nominal * (100 - percent);
            lower <= measured && measured <= upper
        }
    }
}

/// A duration exactly on either edge of the tolerance window is inside it,
/// and a duration one nanosecond beyond an edge is outside.
pub proof fn lemma_margin_edges(measured: Duration, nominal: Duration, error_percent: u32)
    ensures
        100 * measured.nanos == nominal.nanos * (100 - error_percent) ==> measured.around(
            nominal,
            error_percent,
        ),
        100 * measured.nanos == nominal.nanos * (100 + error_percent) ==> measured.around(
            nominal,
            error_percent,
        ),
        100 * (measured.nanos + 1) == nominal.nanos * (100 - error_percent) ==> !measured.around(
            nominal,
            error_percent,
        ),
        100 * (measured.nanos - 1) == nominal.nanos * (100 + error_percent) ==> !measured.around(
            nominal,
            error_percent,
        ),
{
    let n = nominal.nanos as int;
    let p = error_percent as int;
    assert(n * (100 - p) <= n * (100 + p)) by (nonlinear_arith)
        requires
            n >= 0,
            p >= 0,
    ;
}

} // verus!
