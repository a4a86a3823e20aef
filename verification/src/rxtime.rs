//! Fixed-point timestamps with exact arithmetic.
//!
//! A timestamp is a count of units of `2^-64` seconds held in an `i128`:
//! 64 bits for the (signed) whole seconds and 64 bits for the sub-second
//! fraction. This keeps sub-nanosecond precision at any date and makes
//! addition and subtraction exact, with the carry across the second boundary
//! handled by plain integer arithmetic. Tolerance comparisons are exact
//! integer comparisons on the underlying units; no value is ever rounded to
//! build a new timestamp.

use vstd::prelude::*;

verus! {

/// Number of timestamp units in one second (`2^64`).
pub const UNITS_PER_SEC: i128 = 0x1_0000_0000_0000_0000;

/// Maps a unit count into `[0, 2^128)` by adding `2^127`, so that distances
/// between any two counts can be taken in `u128` without overflow.
fn offset_units(x: i128) -> (r: u128)
    ensures
        r == x + 0x8000_0000_0000_0000_0000_0000_0000_0000,
{
    if x >= 0 {
        (x as u128) + 0x8000_0000_0000_0000_0000_0000_0000_0000u128
    } else {
        (x - i128::MIN) as u128
    }
}

/// A point in time relative to an arbitrary origin, in units of `2^-64` s.
#[derive(Clone, Copy, Debug, PartialEq, Eq, Structural)]
pub struct RxTime {
    units: i128,
}

impl RxTime {
    /// The raw count of `2^-64` s units.
    pub closed spec fn units(self) -> int {
        self.units as int
    }

    /// Builds a timestamp from whole seconds and a fraction in `2^-64` s
    /// units; the fraction is added on top of the seconds, so negative
    /// times use a floor representation (`sec` rounded down).
    pub fn new(sec: i64, frac: u64) -> (r: RxTime)
        ensures
            r.units() == sec * 0x1_0000_0000_0000_0000 + frac,
    {
        RxTime { units: (sec as i128) * UNITS_PER_SEC + (frac as i128) }
    }

    /// Builds a timestamp directly from a unit count.
    pub fn from_units(units: i128) -> (r: RxTime)
        ensures
            r.units() == units,
    {
        RxTime { units }
    }

    /// The raw unit count, as an executable value.
    pub fn to_units(self) -> (r: i128)
        ensures
            r == self.units(),
    {
        self.units
    }

    /// Exact addition; the carry between fraction and seconds is implicit in
    /// the unit count.
    pub fn add(self, other: RxTime) -> (r: RxTime)
        requires
            i128::MIN <= self.units() + other.units() <= i128::MAX,
        ensures
            r.units() == self.units() + other.units(),
    {
        RxTime { units: self.units + other.units }
    }

    /// Exact subtraction; the borrow between fraction and seconds is implicit
    /// in the unit count.
    pub fn sub(self, other: RxTime) -> (r: RxTime)
        requires
            i128::MIN <= self.units() - other.units() <= i128::MAX,
        ensures
            r.units() == self.units() - other.units(),
    {
        RxTime { units: self.units - other.units }
    }

    /// Addition that reports an out-of-range result instead of requiring the
    /// caller to exclude it.
    pub fn checked_add(self, other: RxTime) -> (r: Option<RxTime>)
        ensures
            i128::MIN <= self.units() + other.units() <= i128::MAX ==> (r matches Some(t)
                && t.units() == self.units() + other.units()),
            !(i128::MIN <= self.units() + other.units() <= i128::MAX) ==> r is None,
    {
        match self.units.checked_add(other.units) {
            Some(u) => Some(RxTime { units: u }),
            None => None,
        }
    }

    /// The absolute difference between two timestamps, in `2^-64` s units.
    pub fn abs_diff(self, other: RxTime) -> (r: u128)
        ensures
            r == if self.units() >= other.units() {
                self.units() - other.units()
            } else {
                other.units() - self.units()
            },
    {
        if self.units >= other.units {
            offset_units(self.units) - offset_units(other.units)
        } else {
            offset_units(other.units) - offset_units(self.units)
        }
    }

    /// True when the two timestamps are the same up to the tolerance, an
    /// exact comparison on the unit counts.
    pub fn is_same_as(self, b: RxTime, tol: RxTime) -> (r: bool)
        requires
            tol.units() >= 0,
        ensures
            r == (if self.units() >= b.units() {
                self.units() - b.units()
            } else {
                b.units() - self.units()
            } <= tol.units()),
    {
        let d: u128 = self.abs_diff(b);
        d <= tol.units as u128
    }
}

} // verus!
