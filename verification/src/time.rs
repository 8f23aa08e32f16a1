//! World time.
//!
//! A world's clock counts ticks from its epoch. The calendar says how many
//! ticks make a second and how seconds build up to hours and days; advancing
//! by a calendar unit is multiplication, checked so that a clock never wraps.

use vstd::prelude::*;

verus! {

/// A moment in a world, in ticks since its epoch.
#[derive(Debug, Clone, Copy, PartialEq, Eq, Structural, Hash, PartialOrd, Ord)]
pub struct WorldTime(pub u64);

impl WorldTime {
    /// The first tick of every world.
    pub fn epoch() -> (t: Self)
        ensures
            t.0 == 0,
    {
        WorldTime(0)
    }

    /// Ticks since the epoch.
    pub fn ticks(&self) -> (n: u64)
        ensures
            n == self.0,
    {
        self.0
    }
}

/// A calendar unit to advance a clock by.
#[derive(Debug, Clone, Copy, PartialEq, Eq, Structural)]
pub enum TimeScale {
    /// One tick.
    Tick,
    /// One second.
    Second,
    /// One minute.
    Minute,
    /// One hour.
    Hour,
    /// One day.
    Day,
}

/// Why a calendar or a clock refused a request.
#[derive(Debug, Clone, Copy, PartialEq, Eq, Structural)]
pub enum TimeError {
    /// A calendar field is zero.
    ZeroField,
    /// Advancing would carry the clock past the largest representable tick.
    Overflow,
}

/// How ticks build up into calendar units.
#[derive(Debug, Clone, Copy, PartialEq, Eq, Structural)]
pub struct CalendarConfig {
    ticks_per_second: u32,
    seconds_per_minute: u32,
    minutes_per_hour: u32,
    hours_per_day: u32,
    days_per_month: u32,
    months_per_year: u32,
    seasons_per_year: u32,
}

impl CalendarConfig {
    /// The seven fields, in declaration order.
    pub closed spec fn fields(self) -> Seq<u32> {
        seq![
            self.ticks_per_second,
            self.seconds_per_minute,
            self.minutes_per_hour,
            self.hours_per_day,
            self.days_per_month,
            self.months_per_year,
            self.seasons_per_year,
        ]
    }

    /// A calendar has seven fields, and they determine it.
    pub proof fn lemma_fields(self, other: CalendarConfig)
        ensures
            self.fields().len() == 7,
            self.fields() == other.fields() ==> self == other,
    {
        if self.fields() == other.fields() {
            assert(self.fields()[0] == other.fields()[0]);
            assert(self.fields()[1] == other.fields()[1]);
            assert(self.fields()[2] == other.fields()[2]);
            assert(self.fields()[3] == other.fields()[3]);
            assert(self.fields()[4] == other.fields()[4]);
            assert(self.fields()[5] == other.fields()[5]);
            assert(self.fields()[6] == other.fields()[6]);
        }
    }

    /// No field is zero.
    pub open spec fn wf(self) -> bool {
        forall|i: int| 0 <= i < 7 ==> self.fields()[i] > 0
    }

    /// Ticks in one unit of a scale.
    pub closed spec fn spec_ticks_in(self, scale: TimeScale) -> int {
        let s = self.ticks_per_second as int;
        let m = s * self.seconds_per_minute;
        let h = m * self.minutes_per_hour;
        let d = h * self.hours_per_day;
        match scale {
            TimeScale::Tick => 1,
            TimeScale::Second => s,
            TimeScale::Minute => m,
            TimeScale::Hour => h,
            TimeScale::Day => d,
        }
    }

    /// Each calendar unit is a whole number of the next smaller one: a
    /// second is `ticks_per_second` ticks, a minute `seconds_per_minute`
    /// seconds, an hour `minutes_per_hour` minutes and a day `hours_per_day`
    /// hours. So an hour is `ticks_per_second * seconds_per_minute *
    /// minutes_per_hour` ticks, and a day `hours_per_day` such hours.
    pub proof fn lemma_units_build_up(self)
        ensures
            self.spec_ticks_in(TimeScale::Tick) == 1,
            self.spec_ticks_in(TimeScale::Second) == self.fields()[0],
            self.spec_ticks_in(TimeScale::Minute) == self.spec_ticks_in(TimeScale::Second)
                * self.fields()[1],
            self.spec_ticks_in(TimeScale::Hour) == self.spec_ticks_in(TimeScale::Minute)
                * self.fields()[2],
            self.spec_ticks_in(TimeScale::Day) == self.spec_ticks_in(TimeScale::Hour)
                * self.fields()[3],
            self.spec_ticks_in(TimeScale::Hour) == self.fields()[0] * self.fields()[1]
                * self.fields()[2],
            self.spec_ticks_in(TimeScale::Day) == self.fields()[3] * (self.fields()[0]
                * self.fields()[1] * self.fields()[2]),
    {
        let (a, b, c, d) = (
            self.fields()[0] as int,
            self.fields()[1] as int,
            self.fields()[2] as int,
            self.fields()[3] as int,
        );
        assert(a * b * c * d == d * (a * b * c)) by (nonlinear_arith);
    }

    /// A calendar from its seven fields, refusing any that is zero.
    pub fn new(
        ticks_per_second: u32,
        seconds_per_minute: u32,
        minutes_per_hour: u32,
        hours_per_day: u32,
        days_per_month: u32,
        months_per_year: u32,
        seasons_per_year: u32,
    ) -> (r: Result<Self, TimeError>)
        ensures
            r is Ok <==> (ticks_per_second > 0 && seconds_per_minute > 0 && minutes_per_hour > 0
                && hours_per_day > 0 && days_per_month > 0 && months_per_year > 0
                && seasons_per_year > 0),
            r matches Ok(c) ==> c.wf() && c.fields() == seq![
                ticks_per_second,
                seconds_per_minute,
                minutes_per_hour,
                hours_per_day,
                days_per_month,
                months_per_year,
                seasons_per_year,
            ],
            r matches Err(e) ==> e == TimeError::ZeroField,
    {
        if ticks_per_second == 0 || seconds_per_minute == 0 || minutes_per_hour == 0
            || hours_per_day == 0 || days_per_month == 0 || months_per_year == 0
            || seasons_per_year == 0 {
            return Err(TimeError::ZeroField);
        }
        Ok(CalendarConfig {
            ticks_per_second,
            seconds_per_minute,
            minutes_per_hour,
            hours_per_day,
            days_per_month,
            months_per_year,
            seasons_per_year,
        })
    }

    /// Twenty ticks a second, sixty seconds a minute, sixty minutes an hour,
    /// twenty-four hours a day, thirty days a month, twelve months and four
    /// seasons a year.
    pub fn earthlike() -> (c: Self)
        ensures
            c.wf(),
            c.fields() == seq![20u32, 60, 60, 24, 30, 12, 4],
    {
        CalendarConfig {
            ticks_per_second: 20,
            seconds_per_minute: 60,
            minutes_per_hour: 60,
            hours_per_day: 24,
            days_per_month: 30,
            months_per_year: 12,
            seasons_per_year: 4,
        }
    }

    /// Ticks per second.
    pub fn ticks_per_second(&self) -> (r: u32)
        ensures
            r == self.fields()[0],
    {
        self.ticks_per_second
    }

    /// Seconds per minute.
    pub fn seconds_per_minute(&self) -> (r: u32)
        ensures
            r == self.fields()[1],
    {
        self.seconds_per_minute
    }

    /// Minutes per hour.
    pub fn minutes_per_hour(&self) -> (r: u32)
        ensures
            r == self.fields()[2],
    {
        self.minutes_per_hour
    }

    /// Hours per day.
    pub fn hours_per_day(&self) -> (r: u32)
        ensures
            r == self.fields()[3],
    {
        self.hours_per_day
    }

    /// Days per month.
    pub fn days_per_month(&self) -> (r: u32)
        ensures
            r == self.fields()[4],
    {
        self.days_per_month
    }

    /// Months per year.
    pub fn months_per_year(&self) -> (r: u32)
        ensures
            r == self.fields()[5],
    {
        self.months_per_year
    }

    /// Seasons per year.
    pub fn seasons_per_year(&self) -> (r: u32)
        ensures
            r == self.fields()[6],
    {
        self.seasons_per_year
    }

    /// Ticks in one unit of a scale, when that fits in a `u64`.
    pub fn ticks_in(&self, scale: TimeScale) -> (r: Option<u64>)
        requires
            self.wf(),
        ensures
            r is Some <==> self.spec_ticks_in(scale) <= u64::MAX,
            r matches Some(n) ==> n == self.spec_ticks_in(scale),
            self.spec_ticks_in(scale) >= 1,
            r matches Some(n) ==> n == match scale {
                TimeScale::Tick => 1,
                TimeScale::Second => self.fields()[0] as int,
                TimeScale::Minute => self.fields()[0] * self.fields()[1],
                TimeScale::Hour => self.fields()[0] * self.fields()[1] * self.fields()[2],
                TimeScale::Day => self.fields()[0] * self.fields()[1] * self.fields()[2]
                    * self.fields()[3],
            },
    {
        proof {
            assert(self.fields()[0] > 0 && self.fields()[1] > 0 && self.fields()[2] > 0
                && self.fields()[3] > 0);
        }
        let s = self.ticks_per_second as u64;
        proof {
            let (a, b) = (s as int, self.seconds_per_minute as int);
            assert(a * b <= 0xffff_ffff * 0xffff_ffff) by (nonlinear_arith)
                requires
                    0 <= a <= 0xffff_ffff,
                    0 <= b <= 0xffff_ffff,
            {
                assert(a * b <= 0xffff_ffff * b);
            }
        }
        let m = s * (self.seconds_per_minute as u64);
        proof {
            let (a, b, c, e) = (
                s as int,
                self.seconds_per_minute as int,
                self.minutes_per_hour as int,
                self.hours_per_day as int,
            );
            assert(a * b >= 1 && a * b * c >= a * b && a * b * c * e >= a * b * c)
                by (nonlinear_arith)
                requires
                    a >= 1,
                    b >= 1,
                    c >= 1,
                    e >= 1,
            ;
        }
        let h = m.checked_mul(self.minutes_per_hour as u64);
        let d = match h {
            Some(h) => h.checked_mul(self.hours_per_day as u64),
            None => None,
        };
        match scale {
            TimeScale::Tick => Some(1),
            TimeScale::Second => Some(s),
            TimeScale::Minute => Some(m),
            TimeScale::Hour => h,
            TimeScale::Day => d,
        }
    }
}

/// The authoritative clock of one world.
#[derive(Debug, Clone, Copy, PartialEq, Eq, Structural)]
pub struct WorldClock {
    calendar: CalendarConfig,
    now: WorldTime,
}

impl WorldClock {
    /// The calendar.
    pub closed spec fn spec_calendar(self) -> CalendarConfig {
        self.calendar
    }

    /// The current tick.
    pub closed spec fn spec_now(self) -> WorldTime {
        self.now
    }

    /// A clock is its calendar and its tick.
    pub proof fn lemma_determined(self, other: WorldClock)
        requires
            self.spec_calendar() == other.spec_calendar(),
            self.spec_now() == other.spec_now(),
        ensures
            self == other,
    {
    }

    /// A clock at the epoch.
    pub fn new(calendar: CalendarConfig) -> (c: Self)
        ensures
            c.spec_calendar() == calendar,
            c.spec_now().0 == 0,
    {
        WorldClock { calendar, now: WorldTime(0) }
    }

    /// A clock resumed at a persisted time.
    pub fn resumed_at(calendar: CalendarConfig, now: WorldTime) -> (c: Self)
        ensures
            c.spec_calendar() == calendar,
            c.spec_now() == now,
    {
        WorldClock { calendar, now }
    }

    /// The calendar.
    pub fn calendar(&self) -> (c: CalendarConfig)
        ensures
            c == self.spec_calendar(),
    {
        self.calendar
    }

    /// The current tick.
    pub fn now(&self) -> (t: WorldTime)
        ensures
            t == self.spec_now(),
    {
        self.now
    }

    /// Move the clock forward by `count` units of `scale`.
    ///
    /// Refused, with the clock unchanged, when the result would not fit.
    pub fn advance_by(&mut self, scale: TimeScale, count: u64) -> (r: Result<(), TimeError>)
        requires
            old(self).spec_calendar().wf(),
        ensures
            final(self).spec_calendar() == old(self).spec_calendar(),
            r is Ok <==> old(self).spec_now().0 + old(self).spec_calendar().spec_ticks_in(scale)
                * count <= u64::MAX,
            r is Ok ==> final(self).spec_now().0 == old(self).spec_now().0 + old(
                self,
            ).spec_calendar().spec_ticks_in(scale) * count,
            r matches Err(e) ==> e == TimeError::Overflow && *final(self) == *old(self),
    {
        if count == 0 {
            return Ok(());
        }
        let unit = match self.calendar.ticks_in(scale) {
            Some(unit) => unit,
            None => {
                proof {
                    let u = self.calendar.spec_ticks_in(scale);
                    assert(u * count >= u) by (nonlinear_arith)
                        requires
                            u >= 1,
                            count >= 1,
                    ;
                }
                return Err(TimeError::Overflow);
            },
        };
        let delta = match unit.checked_mul(count) {
            Some(delta) => delta,
            None => {
                return Err(TimeError::Overflow);
            },
        };
        match self.now.0.checked_add(delta) {
            Some(next) => {
                self.now = WorldTime(next);
                Ok(())
            },
            None => Err(TimeError::Overflow),
        }
    }
}

} // verus!
