//! The in-memory configuration: named entries, their domains, and the
//! restriction each entry is under.

use vstd::prelude::*;
use crate::LocalTime;
use crate::MINUTES_PER_DAY;
use crate::hosts::valid_token;
use crate::hosts::is_token_char;
use crate::util::StrMap;

verus! {

/// Why a configuration value was rejected at load time.  Any of these is
/// fatal: a daemon does not start from a malformed configuration.
#[derive(Clone, Copy, PartialEq, Eq, Structural, Debug)]
pub enum ConfigError {
    /// A time-of-day token was not `HH:MM` with hours below 24 and minutes
    /// below 60.
    BadTime,
    /// A window token was not `<time>-<time>`.
    BadWindow,
    /// A duration token was not a decimal number followed by `h` or `m`,
    /// or its value in minutes does not fit the engine's range.
    BadDuration,
    /// A domain was empty or contained whitespace, `#` or a line break.
    BadDomain,
}

/// A daily time window `[begin, end)` in minutes since midnight.  When
/// `begin >= end` the window wraps midnight.
#[derive(Clone, Copy, PartialEq, Eq, Structural, Debug)]
pub struct StaticDuration {
    pub begin: u32,
    pub end: u32,
}

impl StaticDuration {
    /// Both bounds are times of day.
    pub open spec fn wf(self) -> bool {
        self.begin < MINUTES_PER_DAY && self.end < MINUTES_PER_DAY
    }

    /// Whether the time of day `t` (minutes since midnight) falls in the
    /// window: for `begin < end` exactly when `begin <= t < end`, and for a
    /// midnight-wrapping window exactly when `t >= begin` or `t < end`.
    pub open spec fn spec_contains(self, t: u32) -> bool {
        if self.begin < self.end {
            self.begin <= t && t < self.end
        } else {
            t >= self.begin || t < self.end
        }
    }

    /// Whether `time` falls in the window.
    pub fn contains(&self, time: &LocalTime) -> (r: bool)
        ensures
            r == self.spec_contains(time.mins_of_day),
    {
        let t = time.mins_of_day;
        if self.begin < self.end {
            self.begin <= t && t < self.end
        } else {
            t >= self.begin || t < self.end
        }
    }
}

/// The unit of a duration token.
#[derive(Clone, Copy, PartialEq, Eq, Structural, Debug)]
pub enum DurationUnit {
    Minutes,
    Hours,
}

/// The rule an entry is under: a fixed set of daily unlock windows, or a
/// usage period with a cooldown, both in minutes.
pub enum Restriction {
    Static { unlock: Vec<StaticDuration> },
    Dynamic { period: u64, cool_time: u64 },
}

impl Restriction {
    /// All windows of a static rule are well-formed.
    pub open spec fn wf(self) -> bool {
        match self {
            Restriction::Static { unlock } => forall|i: int|
                0 <= i < unlock@.len() ==> (#[trigger] unlock@[i]).wf(),
            Restriction::Dynamic { .. } => true,
        }
    }

    /// Whether this is a dynamic (usage-period) rule.
    pub open spec fn spec_is_dynamic(self) -> bool {
        self is Dynamic
    }

    pub fn is_dynamic(&self) -> (r: bool)
        ensures
            r == self.spec_is_dynamic(),
    {
        match self {
            Restriction::Dynamic { .. } => true,
            Restriction::Static { .. } => false,
        }
    }
}

/// Whether any of the windows contains the time of day of `time`.
pub open spec fn spec_any_window_contains(windows: Seq<StaticDuration>, t: u32) -> bool {
    exists|i: int| 0 <= i < windows.len() && (#[trigger] windows[i]).spec_contains(t)
}

/// Whether `time` falls in at least one of `windows`.
pub fn any_window_contains(windows: &Vec<StaticDuration>, time: &LocalTime) -> (r: bool)
    ensures
        r == spec_any_window_contains(windows@, time.mins_of_day),
{
    let n = windows.len();
    let mut i: usize = 0;
    while i < n
        invariant
            n == windows@.len(),
            i <= n,
            forall|j: int| 0 <= j < i ==> !(#[trigger] windows@[j]).spec_contains(time.mins_of_day),
        decreases n - i,
    {
        if windows[i].contains(time) {
            return true;
        }
        i = i + 1;
    }
    false
}

/// A named group of domains under one restriction.
pub struct Entry {
    pub domains: Vec<String>,
    pub restriction: Restriction,
}

impl Entry {
    /// The restriction is well-formed and every domain is a usable token
    /// of the block-list grammar.
    pub open spec fn wf(self) -> bool {
        self.restriction.wf() && forall|i: int|
            0 <= i < self.domains@.len() ==> valid_token((#[trigger] self.domains@[i])@)
    }
}

/// Whether every character of `s` may appear in a block-list token.
fn all_token_chars(s: &str) -> (r: bool)
    ensures
        r == forall|i: int| 0 <= i < s@.len() ==> is_token_char(#[trigger] s@[i]),
{
    let n = s.unicode_len();
    let mut i: usize = 0;
    while i < n
        invariant
            n == s@.len(),
            i <= n,
            forall|j: int| 0 <= j < i ==> is_token_char(#[trigger] s@[j]),
        decreases n - i,
    {
        let c = s.get_char(i);
        if c == ' ' || c == '\t' || c == '#' || c == '\n' {
            return false;
        }
        i = i + 1;
    }
    true
}

/// Whether `s` is a usable domain: non-empty, without whitespace, `#` or a
/// line break.
pub fn is_valid_domain(s: &str) -> (r: bool)
    ensures
        r == valid_token(s@),
{
    s.unicode_len() > 0 && all_token_chars(s)
}

impl Entry {
    /// Builds an entry, rejecting any unusable domain.
    pub fn new(domains: Vec<String>, restriction: Restriction) -> (r: Result<Entry, ConfigError>)
        requires
            restriction.wf(),
        ensures
            match r {
                Ok(e) => e.wf() && e.domains@ == domains@
                    && e.restriction == restriction
                    && forall|i: int|
                        0 <= i < domains@.len() ==> valid_token((#[trigger] domains@[i])@),
                Err(e) => e == ConfigError::BadDomain && (exists|i: int|
                    0 <= i < domains@.len() && !valid_token((#[trigger] domains@[i])@)),
            },
    {
        let n = domains.len();
        let mut i: usize = 0;
        while i < n
            invariant
                n == domains@.len(),
                i <= n,
                forall|j: int| 0 <= j < i ==> valid_token((#[trigger] domains@[j])@),
            decreases n - i,
        {
            if !is_valid_domain(domains[i].as_str()) {
                return Err(ConfigError::BadDomain);
            }
            i = i + 1;
        }
        Ok(Entry { domains, restriction })
    }
}

/// The whole configuration: the external trigger commands, the tick
/// interval in seconds, and the entries in their configured order.
pub struct Config {
    pub after_lock: Option<String>,
    pub after_unlock: Option<String>,
    pub interval: u64,
    pub entries: StrMap<Entry>,
}

impl Config {
    /// Unique entry names and well-formed entries.
    pub open spec fn wf(self) -> bool {
        self.entries.wf() && forall|i: int|
            0 <= i < self.entries@.len() ==> (#[trigger] self.entries@[i]).1.wf()
    }

    /// Assembles a configuration from entries built with `Entry::new`.
    pub fn new(
        after_lock: Option<String>,
        after_unlock: Option<String>,
        interval: u64,
        entries: StrMap<Entry>,
    ) -> (r: Config)
        requires
            entries.wf(),
            forall|i: int| 0 <= i < entries@.len() ==> (#[trigger] entries@[i]).1.wf(),
        ensures
            r.wf(),
            r.after_lock == after_lock,
            r.after_unlock == after_unlock,
            r.interval == interval,
            r.entries == entries,
    {
        Config { after_lock, after_unlock, interval, entries }
    }
}

/// The tick interval used when the configuration names none: one minute.
pub fn default_interval() -> (r: u64)
    ensures
        r == 60,
{
    60
}

} // verus!
