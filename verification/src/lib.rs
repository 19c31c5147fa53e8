//! Access-state engine for a time- and usage-bounded domain blocker.
//!
//! The crate decides, per named entry, whether its domains are locked or
//! unlocked, reconciles a hosts-style block list against that decision,
//! parses the restriction grammar (time windows and durations), and encodes
//! the persisted state and the unlock-response messages.  All I/O is left to
//! the surrounding program; every function here works on plain values.

use vstd::prelude::*;

pub mod codec;
pub mod config;
pub mod event;
pub mod hosts;
pub mod message;
pub mod parse;
pub mod state;
pub mod util;

verus! {

/// Minutes in a day; time-of-day values lie strictly below this bound.
pub const MINUTES_PER_DAY: u32 = 1440;

/// A point in local time, as the engine sees it: seconds since the Unix
/// epoch for comparisons against recorded timestamps, and the local
/// time-of-day in minutes for evaluating daily windows.
pub struct LocalTime {
    /// Seconds since the Unix epoch.
    pub secs: i64,
    /// Minutes since local midnight, below `MINUTES_PER_DAY`.
    pub mins_of_day: u32,
}

impl LocalTime {
    /// A well-formed local time carries a valid time-of-day.
    pub open spec fn wf(self) -> bool {
        self.mins_of_day < MINUTES_PER_DAY
    }

    /// Builds a local time from epoch seconds and time-of-day minutes.
    pub fn new(secs: i64, mins_of_day: u32) -> (r: LocalTime)
        requires
            mins_of_day < MINUTES_PER_DAY,
        ensures
            r.wf(),
            r.secs == secs,
            r.mins_of_day == mins_of_day,
    {
        LocalTime { secs, mins_of_day }
    }
}

} // verus!
