//! Spans of time, counted in whole nanoseconds, and the monotonic clock.

use std::time::Instant;
use vstd::prelude::*;

verus! {

/// A reading of the monotonic clock. Nothing is known of what one holds.
#[verifier::external_type_specification]
#[verifier::external_body]
pub struct ExInstant(Instant);

/// `Instant::now` reads the clock. Nothing is claimed of the reading: two readings may be
/// any two.
pub assume_specification[ Instant::now ]() -> Instant;

/// `Instant::saturating_duration_since` gives the time that passed from `earlier` to `this`,
/// and the empty span where `earlier` is the later one. Nothing is claimed of the span it
/// gives.
pub assume_specification[ Instant::saturating_duration_since ](this: &Instant, earlier: Instant)
    -> std::time::Duration;

/// `Duration::as_nanos` gives the whole span in nanoseconds. Claimed of it is a bound alone:
/// a standard span holds at most `u64::MAX` seconds and less than a second more, so the
/// count stays within that.
pub assume_specification[ std::time::Duration::as_nanos ](span: &std::time::Duration) -> (n: u128)
    ensures
        n <= u64::MAX * 1_000_000_000 + 999_999_999,
;

/// The nanoseconds in a second.
pub const NANOS_PER_SEC: u128 = 1_000_000_000;

/// The nanoseconds in a millisecond.
pub const NANOS_PER_MILLI: u128 = 1_000_000;

/// The nanoseconds in a microsecond.
pub const NANOS_PER_MICRO: u128 = 1_000;

/// The longest span a [`Duration`] holds, in nanoseconds: `u64::MAX` whole seconds and
/// 999_999_999 nanoseconds more.
pub const MAX_NANOS: u128 = 18_446_744_073_709_551_615_999_999_999;

/// A span of time. Its view is the number of nanoseconds in it.
#[derive(Clone, Copy, Debug, PartialEq, Eq, Structural, PartialOrd, Ord, Hash, Default)]
pub struct Duration {
    nanos: u128,
}

impl View for Duration {
    type V = nat;

    closed spec fn view(&self) -> nat {
        self.nanos as nat
    }
}

impl Duration {
    #[verifier::type_invariant]
    spec fn in_range(self) -> bool {
        self.nanos <= MAX_NANOS
    }

    /// The empty span.
    pub fn zero() -> (d: Duration)
        ensures
            d@ == 0,
    {
        Duration { nanos: 0 }
    }

    /// The span of `secs` seconds and `nanos` nanoseconds, where there is one: `nanos` may
    /// exceed a second, and the sum may then pass [`MAX_NANOS`].
    pub fn from_parts(secs: u64, nanos: u32) -> (d: Option<Duration>)
        ensures
            d is Some <==> secs * NANOS_PER_SEC + nanos <= MAX_NANOS,
            d matches Some(x) ==> x@ == secs * NANOS_PER_SEC + nanos,
    {
        let total: u128 = (secs as u128) * NANOS_PER_SEC + (nanos as u128);
        if total <= MAX_NANOS {
            Some(Duration { nanos: total })
        } else {
            None
        }
    }

    /// The span of `secs` seconds.
    pub fn from_secs(secs: u64) -> (d: Duration)
        ensures
            d@ == secs * NANOS_PER_SEC,
    {
        Duration { nanos: (secs as u128) * NANOS_PER_SEC }
    }

    /// The span of `millis` milliseconds.
    pub fn from_millis(millis: u64) -> (d: Duration)
        ensures
            d@ == millis * NANOS_PER_MILLI,
    {
        Duration { nanos: (millis as u128) * NANOS_PER_MILLI }
    }

    /// The span of `micros` microseconds.
    pub fn from_micros(micros: u64) -> (d: Duration)
        ensures
            d@ == micros * NANOS_PER_MICRO,
    {
        Duration { nanos: (micros as u128) * NANOS_PER_MICRO }
    }

    /// The span of `nanos` nanoseconds.
    pub fn from_nanos(nanos: u64) -> (d: Duration)
        ensures
            d@ == nanos,
    {
        Duration { nanos: nanos as u128 }
    }

    /// The whole span in nanoseconds.
    pub fn as_nanos(&self) -> (n: u128)
        ensures
            n == self@,
            n <= MAX_NANOS,
    {
        proof {
            use_type_invariant(self);
        }
        self.nanos
    }

    /// The whole span in microseconds, rounded down.
    pub fn as_micros(&self) -> (n: u128)
        ensures
            n == self@ / NANOS_PER_MICRO as nat,
    {
        self.nanos / NANOS_PER_MICRO
    }

    /// The whole seconds in the span.
    pub fn as_secs(&self) -> (n: u64)
        ensures
            n == self@ / NANOS_PER_SEC as nat,
            self@ <= MAX_NANOS,
    {
        proof {
            use_type_invariant(self);
        }
        (self.nanos / NANOS_PER_SEC) as u64
    }

    /// What is left of the span beside its whole seconds, in nanoseconds.
    pub fn subsec_nanos(&self) -> (n: u32)
        ensures
            n == self@ % NANOS_PER_SEC as nat,
            n < NANOS_PER_SEC,
    {
        (self.nanos % NANOS_PER_SEC) as u32
    }

    /// The sum of two spans, unless it passes [`MAX_NANOS`].
    pub fn checked_add(self, rhs: Duration) -> (d: Option<Duration>)
        ensures
            d is Some <==> self@ + rhs@ <= MAX_NANOS,
            d matches Some(x) ==> x@ == self@ + rhs@,
    {
        proof {
            use_type_invariant(self);
            use_type_invariant(rhs);
        }
        let total: u128 = self.nanos + rhs.nanos;
        if total <= MAX_NANOS {
            Some(Duration { nanos: total })
        } else {
            None
        }
    }

    /// The sum of two spans, cut off at [`MAX_NANOS`].
    pub fn saturating_add(self, rhs: Duration) -> (d: Duration)
        ensures
            d@ == if self@ + rhs@ <= MAX_NANOS { self@ + rhs@ } else { MAX_NANOS as nat },
    {
        match self.checked_add(rhs) {
            Some(sum) => sum,
            None => Duration { nanos: MAX_NANOS },
        }
    }

    /// What `self` has more than `rhs`, unless `rhs` is the longer one.
    pub fn checked_sub(self, rhs: Duration) -> (d: Option<Duration>)
        ensures
            d is Some <==> rhs@ <= self@,
            d matches Some(x) ==> x@ == self@ - rhs@,
    {
        proof {
            use_type_invariant(self);
        }
        if rhs.nanos <= self.nanos {
            Some(Duration { nanos: self.nanos - rhs.nanos })
        } else {
            None
        }
    }

    /// What `self` has more than `rhs`, and the empty span where `rhs` is the longer one.
    pub fn saturating_sub(self, rhs: Duration) -> (d: Duration)
        ensures
            d@ == if rhs@ <= self@ { self@ - rhs@ } else { 0 },
    {
        match self.checked_sub(rhs) {
            Some(rest) => rest,
            None => Duration { nanos: 0 },
        }
    }

    /// The time from `earlier` to `later` as the clock has it.
    pub(crate) fn between(earlier: &Instant, later: &Instant) -> Duration {
        let span = later.saturating_duration_since(*earlier);
        Duration { nanos: span.as_nanos() }
    }
}

} // verus!
