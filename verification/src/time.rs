//! Spans and points of virtual time, in nanoseconds.

use vstd::prelude::*;

verus! {

pub const NANOS_PER_SEC: u64 = 1_000_000_000;

pub const NANOS_PER_MILLI: u64 = 1_000_000;

/// A span of time. It holds at most `u64::MAX` nanoseconds (some 584 years);
/// a longer span is held as that.
#[derive(Clone, Copy, Debug, PartialEq, Eq, Structural)]
pub struct Duration {
    pub nanos: u64,
}

/// `n`, or the largest `u64` if `n` is above it.
pub open spec fn sat_u64(n: int) -> u64 {
    if n > u64::MAX {
        u64::MAX
    } else if n < 0 {
        0
    } else {
        n as u64
    }
}

/// A counter after one more event; a full counter stays full.
pub open spec fn bumped(n: u64) -> u64 {
    sat_u64(n + 1)
}

/// One more than `n`, unless `n` is full.
pub fn bump(n: u64) -> (r: u64)
    ensures
        r == bumped(n),
{
    n.saturating_add(1)
}

impl Duration {
    pub fn from_nanos(nanos: u64) -> (d: Self)
        ensures
            d.nanos == nanos,
    {
        Duration { nanos }
    }

    pub fn from_millis(millis: u64) -> (d: Self)
        ensures
            d.nanos == sat_u64(millis * NANOS_PER_MILLI),
    {
        if millis <= u64::MAX / NANOS_PER_MILLI {
            Duration { nanos: millis * NANOS_PER_MILLI }
        } else {
            Duration { nanos: u64::MAX }
        }
    }

    pub fn from_secs(secs: u64) -> (d: Self)
        ensures
            d.nanos == sat_u64(secs * NANOS_PER_SEC),
    {
        if secs <= u64::MAX / NANOS_PER_SEC {
            Duration { nanos: secs * NANOS_PER_SEC }
        } else {
            Duration { nanos: u64::MAX }
        }
    }

    pub fn as_nanos(&self) -> (nanos: u64)
        ensures
            nanos == self.nanos,
    {
        self.nanos
    }

    /// Whole seconds in the span.
    pub fn as_secs(&self) -> (secs: u64)
        ensures
            secs == self.nanos / NANOS_PER_SEC,
    {
        self.nanos / NANOS_PER_SEC
    }

    /// Whole milliseconds in the span.
    pub fn as_millis(&self) -> (millis: u64)
        ensures
            millis == self.nanos / NANOS_PER_MILLI,
    {
        self.nanos / NANOS_PER_MILLI
    }

    /// The shorter of two spans.
    pub fn min(self, other: Self) -> (d: Self)
        ensures
            d == (if other.nanos < self.nanos {
                other
            } else {
                self
            }),
    {
        if other.nanos < self.nanos {
            other
        } else {
            self
        }
    }

    /// The longer of two spans.
    pub fn max(self, other: Self) -> (d: Self)
        ensures
            d == (if other.nanos > self.nanos {
                other
            } else {
                self
            }),
    {
        if other.nanos > self.nanos {
            other
        } else {
            self
        }
    }
}

/// A sum that fits is what it is; one that does not is the largest that does. A
/// counter goes up by one until it is full.
pub proof fn law_counters_saturate(a: u64, b: u64)
    ensures
        a + b <= u64::MAX ==> sat_u64(a + b) == a + b,
        a + b > u64::MAX ==> sat_u64(a + b) == 0xffff_ffff_ffff_ffffu64,
        a < u64::MAX ==> bumped(a) == a + 1,
        a == u64::MAX ==> bumped(a) == a,
{
}

} // verus!
