//! Telemetry of a search: how many merges were attempted, how many of them
//! went through, and how long the search took.

use vstd::prelude::*;
use std::time::{Duration, Instant};
use crate::dfa_learning_toolkit::dfa::DfaView;

verus! {

/// `std::time::Instant`, a reading of the monotonic clock. It is carried
/// from the start of a search to its end and never looked into.
#[verifier::external_type_specification]
#[verifier::external_body]
pub struct ExInstant(Instant);

/// Reads the monotonic clock with `std::time::Instant::now`. Nothing is
/// claimed of the reading.
#[verifier::external_body]
pub(crate) fn clock_now() -> (t: Instant) {
    Instant::now()
}

/// The time that has passed since `since`, by `std::time::Instant::elapsed`.
/// Nothing is claimed of it.
#[verifier::external_body]
pub(crate) fn clock_elapsed(since: &Instant) -> (d: Duration) {
    since.elapsed()
}

/// The span of `secs` whole seconds and `nanos` nanoseconds more, as
/// `std::time::Duration::new` makes it.
pub uninterp spec fn time_span(secs: u64, nanos: u32) -> Duration;

/// Makes a span of time with `std::time::Duration::new`. What it gives
/// depends on the two numbers alone, and is called `time_span` of them.
/// With less than a second of nanoseconds nothing is carried into the
/// seconds, so the call cannot overflow them.
#[verifier::external_body]
pub(crate) fn span_of(secs: u64, nanos: u32) -> (d: Duration)
    requires
        nanos < 1_000_000_000,
    ensures
        d == time_span(secs, nanos),
{
    Duration::new(secs, nanos)
}

/// What a search gives: the automaton, and the numbers of merges that it
/// attempted and that went through.
pub struct SearchOutcome {
    pub dfa: DfaView,
    pub attempted: nat,
    pub valid: nat,
}

/// The count `n` as a counter holds it: counters stop at `u64::MAX`.
pub open spec fn capped(n: nat) -> u64 {
    if n > u64::MAX {
        u64::MAX
    } else {
        n as u64
    }
}

/// Counts of the merges of one search, and the time it took.
#[derive(Debug)]
pub struct MergeData {
    pub duration: Duration,
    pub attempted_merges_count: u64,
    pub valid_merges_count: u64,
}

impl MergeData {
    /// Telemetry of a search that has not begun: no merge attempted, none
    /// gone through, and no time taken.
    pub fn new() -> (m: MergeData)
        ensures
            m.attempted_merges_count == 0,
            m.valid_merges_count == 0,
            m.duration == time_span(0, 0),
    {
        MergeData { duration: span_of(0, 0), attempted_merges_count: 0, valid_merges_count: 0 }
    }

    /// Counts one attempted merge, and one valid merge if it went through.
    /// A counter that has reached `u64::MAX` stays there.
    pub fn record(&mut self, went_through: bool)
        ensures
            final(self).attempted_merges_count == capped(old(self).attempted_merges_count as nat + 1),
            final(self).valid_merges_count == capped(
                old(self).valid_merges_count as nat + if went_through {
                    1nat
                } else {
                    0nat
                },
            ),
            final(self).duration == old(self).duration,
    {
        if self.attempted_merges_count < u64::MAX {
            self.attempted_merges_count = self.attempted_merges_count + 1;
        }
        if went_through && self.valid_merges_count < u64::MAX {
            self.valid_merges_count = self.valid_merges_count + 1;
        }
    }
}

} // verus!
