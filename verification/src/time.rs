use vstd::prelude::*;

use crate::errors::PlanError;

verus! {

/// Seconds in one day; every time of day lies in `0..=SECS_PER_DAY`.
pub const SECS_PER_DAY: u32 = 86400;

/// A half-open wall-clock interval `[start, end)` within one day, in
/// seconds since midnight. Well-formed ranges satisfy `start < end` and
/// `end <= SECS_PER_DAY`: there is no wraparound past midnight.
#[derive(Debug, Clone, Copy, PartialEq, Eq, Structural)]
pub struct TimeRange {
    pub start: u32,
    pub end: u32,
}

impl TimeRange {
    /// The range invariant: non-empty, and contained in a single day.
    pub open spec fn wf(self) -> bool {
        self.start < self.end <= SECS_PER_DAY
    }

    /// Length of the interval in seconds.
    pub open spec fn spec_duration(self) -> int {
        self.end - self.start
    }

    /// Either endpoint of `other` lies strictly inside this half-open
    /// interval.
    pub open spec fn spec_overlap(self, other: TimeRange) -> bool {
        (other.start >= self.start && other.start < self.end)
            || (other.end > self.start && other.end <= self.end)
    }

    /// This window lies entirely inside `other`, boundaries matching or
    /// tighter.
    pub open spec fn spec_subset(self, other: TimeRange) -> bool {
        self.start >= other.start && other.start < self.end && self.end > other.start
            && other.end >= self.end
    }

    pub fn new(start: u32, end: u32) -> (r: Self)
        requires
            start < end <= SECS_PER_DAY,
        ensures
            r == (TimeRange { start, end }),
            r.wf(),
    {
        TimeRange { start, end }
    }

    pub fn overlap(&self, other: &Self) -> (r: bool)
        ensures
            r == self.spec_overlap(*other),
    {
        (other.start >= self.start && other.start < self.end)
            || (other.end > self.start && other.end <= self.end)
    }

    pub fn subset(&self, other: &Self) -> (r: bool)
        ensures
            r == self.spec_subset(*other),
    {
        (self.start >= other.start && other.start < self.end)
            && (self.end > other.start && other.end >= self.end)
    }

    pub fn to_duration(&self) -> (r: u32)
        requires
            self.start <= self.end,
        ensures
            r == self.spec_duration(),
    {
        self.end - self.start
    }
}

/// The schedulable window of a day: nothing is planned before `wake_time`
/// or after `bed_time`.
#[derive(Debug, Clone, Copy, PartialEq, Eq, Structural)]
pub struct Config {
    pub wake_time: u32,
    pub bed_time: u32,
}

impl Config {
    /// The window is a well-formed range of the day.
    pub open spec fn wf(self) -> bool {
        self.wake_time < self.bed_time <= SECS_PER_DAY
    }

    pub fn new(wake_time: u32, bed_time: u32) -> (r: Self)
        requires
            wake_time < bed_time <= SECS_PER_DAY,
        ensures
            r == (Config { wake_time, bed_time }),
            r.wf(),
    {
        Config { wake_time, bed_time }
    }
}

/// A part of the day a flexible task prefers, either one of the four named
/// parts or an explicit window. The named parts have canonical windows:
/// morning 04:00-12:00, afternoon 12:00-18:00, evening 18:00-21:00, night
/// 21:00-24:00.
#[derive(Debug, Clone, Copy, PartialEq, Eq, Structural)]
pub enum PartOfDay {
    Morning,
    Afternoon,
    Evening,
    Night,
    Fixed(TimeRange),
}

impl PartOfDay {
    /// The canonical window of a named part, for the `Fixed` variant the
    /// window itself.
    pub open spec fn spec_window(self) -> TimeRange {
        match self {
            PartOfDay::Morning => TimeRange { start: 14400, end: 43200 },
            PartOfDay::Afternoon => TimeRange { start: 43200, end: 64800 },
            PartOfDay::Evening => TimeRange { start: 64800, end: 75600 },
            PartOfDay::Night => TimeRange { start: 75600, end: 86400 },
            PartOfDay::Fixed(r) => r,
        }
    }

    /// Converts a named part of day to its canonical explicit window.
    /// An already explicit window has no named part to derive from, so it
    /// is rejected.
    pub fn fixed_from_part(&self) -> (r: Result<Self, PlanError>)
        ensures
            !(self is Fixed) ==> r == Ok::<PartOfDay, PlanError>(
                PartOfDay::Fixed(self.spec_window()),
            ),
            self is Fixed ==> r == Err::<PartOfDay, PlanError>(PlanError::AlreadyFixed),
    {
        match self {
            PartOfDay::Morning => Ok(PartOfDay::Fixed(TimeRange::new(14400, 43200))),
            PartOfDay::Afternoon => Ok(PartOfDay::Fixed(TimeRange::new(43200, 64800))),
            PartOfDay::Evening => Ok(PartOfDay::Fixed(TimeRange::new(64800, 75600))),
            PartOfDay::Night => Ok(PartOfDay::Fixed(TimeRange::new(75600, 86400))),
            PartOfDay::Fixed(_) => Err(PlanError::AlreadyFixed),
        }
    }
}

} // verus!
