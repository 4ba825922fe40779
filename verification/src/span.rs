//! Lengths of time with nanosecond resolution.
use vstd::prelude::*;

verus! {

/// A length of time: up to `u64::MAX` seconds and a fraction.
#[derive(Debug, Clone, Copy, PartialEq, Eq, PartialOrd, Ord, Structural)]
pub struct Span {
    /// The whole length in nanoseconds.
    pub nanos: u128,
}

/// The longest span, in nanoseconds.
pub const SPAN_MAX_NANOS: u128 = 18_446_744_073_709_551_615_999_999_999;

impl Span {
    /// Whole milliseconds.
    pub open spec fn millis(self) -> int {
        self.nanos as int / 1_000_000
    }

    /// A span of whole seconds.
    #[must_use]
    pub fn from_secs(secs: u64) -> (r: Self)
        ensures
            r.nanos == secs * 1_000_000_000,
            r.nanos <= SPAN_MAX_NANOS,
    {
        Span { nanos: secs as u128 * 1_000_000_000 }
    }

    /// A span of whole milliseconds.
    #[must_use]
    pub fn from_millis(millis: u64) -> (r: Self)
        ensures
            r.nanos == millis * 1_000_000,
            r.nanos <= SPAN_MAX_NANOS,
    {
        Span { nanos: millis as u128 * 1_000_000 }
    }

    /// The empty span.
    #[must_use]
    pub fn zero() -> (r: Self)
        ensures
            r.nanos == 0,
    {
        Span { nanos: 0 }
    }

    /// The longest span.
    #[must_use]
    pub fn max() -> (r: Self)
        ensures
            r.nanos == SPAN_MAX_NANOS,
    {
        Span { nanos: SPAN_MAX_NANOS }
    }

    /// Whether the span is empty.
    #[must_use]
    pub fn is_zero(&self) -> (r: bool)
        ensures
            r == (self.nanos == 0),
    {
        self.nanos == 0
    }

    /// Whole milliseconds.
    #[must_use]
    pub fn as_millis(&self) -> (r: u128)
        ensures
            r == self.millis(),
    {
        self.nanos / 1_000_000
    }
}

/// Whole milliseconds are a million nanoseconds each, and less than one is cut
/// off.
pub proof fn law_whole_milliseconds(s: Span)
    ensures
        s.millis() * 1_000_000 <= s.nanos,
        s.nanos < (s.millis() + 1) * 1_000_000,
{
}

} // verus!
