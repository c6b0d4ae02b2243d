//! Wall-clock times of day and half-open ranges that may wrap past midnight.
use vstd::prelude::*;

verus! {

/// Number of seconds in a day.
pub const SECONDS_PER_DAY: u32 = 86400;

/// Bound on the sub-second part; values of a second or more mark a leap second.
pub const FRACTION_LIMIT: u32 = 2_000_000_000;

/// A time of day: seconds since midnight and a sub-second part in nanoseconds.
#[derive(Clone, Copy, Debug, PartialEq, Eq, Structural, Hash)]
pub struct TimeOfDay {
    secs: u32,
    frac: u32,
}

/// `a` comes strictly before `b` on the clock.
pub open spec fn before(a: TimeOfDay, b: TimeOfDay) -> bool {
    a.spec_secs() < b.spec_secs() || (a.spec_secs() == b.spec_secs() && a.spec_frac()
        < b.spec_frac())
}

impl TimeOfDay {
    pub open spec fn wf(self) -> bool {
        self.spec_secs() < SECONDS_PER_DAY && self.spec_frac() < FRACTION_LIMIT
    }

    /// Whole seconds since midnight.
    pub closed spec fn spec_secs(self) -> u32 {
        self.secs
    }

    /// Nanoseconds past the whole second.
    pub closed spec fn spec_frac(self) -> u32 {
        self.frac
    }

    /// The time `secs` seconds and `nano` nanoseconds after midnight, if both
    /// are in range.
    pub fn from_num_seconds_from_midnight(secs: u32, nano: u32) -> (r: Option<TimeOfDay>)
        ensures
            r is Some <==> (secs < SECONDS_PER_DAY && nano < FRACTION_LIMIT),
            r matches Some(t) ==> t.wf() && t.spec_secs() == secs && t.spec_frac() == nano,
    {
        if secs < SECONDS_PER_DAY && nano < FRACTION_LIMIT {
            Some(TimeOfDay { secs, frac: nano })
        } else {
            None
        }
    }

    /// The time `hour:min:sec`, if each part is in range.
    pub fn from_hms(hour: u32, min: u32, sec: u32) -> (r: Option<TimeOfDay>)
        ensures
            r is Some <==> (hour < 24 && min < 60 && sec < 60),
            r matches Some(t) ==> t.wf() && t.spec_secs() == hour * 3600 + min * 60 + sec
                && t.spec_frac() == 0,
    {
        if hour < 24 && min < 60 && sec < 60 {
            Some(TimeOfDay { secs: hour * 3600 + min * 60 + sec, frac: 0 })
        } else {
            None
        }
    }

    pub fn num_seconds_from_midnight(&self) -> (r: u32)
        ensures
            r == self.spec_secs(),
    {
        self.secs
    }

    pub fn nanosecond(&self) -> (r: u32)
        ensures
            r == self.spec_frac(),
    {
        self.frac
    }

    /// Strict clock order.
    pub fn is_before(&self, other: &TimeOfDay) -> (r: bool)
        ensures
            r == before(*self, *other),
    {
        self.secs < other.secs || (self.secs == other.secs && self.frac < other.frac)
    }
}

/// A half-open range `[start, end)` of times of day. When `start` is not
/// before `end` the range wraps past midnight; `start == end` is the whole day.
#[derive(Clone, Copy, Debug, PartialEq, Eq, Structural)]
pub struct TimeRange {
    pub start: TimeOfDay,
    pub end: TimeOfDay,
}

impl TimeRange {
    pub open spec fn spec_contains(self, t: TimeOfDay) -> bool {
        if before(self.start, self.end) {
            !before(t, self.start) && before(t, self.end)
        } else {
            !before(t, self.start) || before(t, self.end)
        }
    }

    pub fn new(start: TimeOfDay, end: TimeOfDay) -> (r: TimeRange)
        ensures
            r.start == start,
            r.end == end,
    {
        TimeRange { start, end }
    }

    pub fn contains(&self, item: &TimeOfDay) -> (r: bool)
        ensures
            r == self.spec_contains(*item),
    {
        if self.start.is_before(&self.end) {
            !item.is_before(&self.start) && item.is_before(&self.end)
        } else {
            !item.is_before(&self.start) || item.is_before(&self.end)
        }
    }
}

/// Any two times are equal or one comes strictly before the other.
pub proof fn lemma_before_total(a: TimeOfDay, b: TimeOfDay)
    ensures
        before(a, b) || before(b, a) || a == b,
{
}

/// A range whose start is after its end holds exactly the times at or after
/// the start and the times before the end.
pub proof fn lemma_wraparound_containment(r: TimeRange, t: TimeOfDay)
    requires
        before(r.end, r.start),
    ensures
        r.spec_contains(t) <==> (!before(t, r.start) || before(t, r.end)),
        (!before(t, r.end) && before(t, r.start)) ==> !r.spec_contains(t),
{
}

/// A range whose start equals its end holds every time of day.
pub proof fn lemma_zero_width_is_whole_day(r: TimeRange, t: TimeOfDay)
    requires
        r.start == r.end,
    ensures
        r.spec_contains(t),
{
}

} // verus!
