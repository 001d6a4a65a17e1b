//! Wall-clock date and time of a shot (no time zone), with the calendar
//! rules of the proleptic Gregorian calendar and the year range that the
//! date type of the `chrono` crate accepts.
use vstd::prelude::*;

verus! {

/// Smallest year a date may have (`chrono`'s `NaiveDate` range).
pub const MIN_YEAR: i32 = -262143;

/// Largest year a date may have (`chrono`'s `NaiveDate` range).
pub const MAX_YEAR: i32 = 262142;

/// A date and time of day, down to the nanosecond.
#[derive(Clone, Copy, Debug, PartialEq, Eq, Structural)]
pub struct Stamp {
    pub year: i32,
    pub month: u32,
    pub day: u32,
    pub hour: u32,
    pub minute: u32,
    pub second: u32,
    pub nano: u32,
}

pub open spec fn is_leap(y: int) -> bool {
    (y % 4 == 0 && y % 100 != 0) || y % 400 == 0
}

pub open spec fn days_in_month(y: int, m: int) -> int {
    if m == 2 {
        if is_leap(y) {
            29
        } else {
            28
        }
    } else if m == 4 || m == 6 || m == 9 || m == 11 {
        30
    } else {
        31
    }
}

/// `chrono`'s `NaiveDate::from_ymd_opt` accepts exactly these dates.
pub open spec fn valid_date(y: int, m: int, d: int) -> bool {
    &&& MIN_YEAR <= y <= MAX_YEAR
    &&& 1 <= m <= 12
    &&& 1 <= d <= days_in_month(y, m)
}

/// `chrono`'s `NaiveDate::and_hms_opt` accepts exactly these times.
pub open spec fn valid_hms(h: int, mi: int, s: int) -> bool {
    0 <= h < 24 && 0 <= mi < 60 && 0 <= s < 60
}

impl Stamp {
    pub open spec fn wf(self) -> bool {
        &&& valid_date(self.year as int, self.month as int, self.day as int)
        &&& valid_hms(self.hour as int, self.minute as int, self.second as int)
        &&& self.nano < 1_000_000_000
    }

    /// The date and time given, when they exist.
    pub fn from_parts(
        year: i32,
        month: u32,
        day: u32,
        hour: u32,
        minute: u32,
        second: u32,
        nano: u32,
    ) -> (r: Option<Stamp>)
        ensures
            r is Some <==> valid_date(year as int, month as int, day as int) && valid_hms(
                hour as int,
                minute as int,
                second as int,
            ) && nano < 1_000_000_000,
            r matches Some(s) ==> s == (Stamp { year, month, day, hour, minute, second, nano }),
    {
        if is_valid_date(year, month, day) && hour < 24 && minute < 60 && second < 60 && nano
            < 1_000_000_000 {
            Some(Stamp { year, month, day, hour, minute, second, nano })
        } else {
            None
        }
    }

    /// Is this a date and time that exists?
    pub fn is_valid(&self) -> (r: bool)
        ensures
            r == self.wf(),
    {
        is_valid_date(self.year, self.month, self.day) && self.hour < 24 && self.minute < 60
            && self.second < 60 && self.nano < 1_000_000_000
    }

    /// The same time of day, on the next calendar day (what adding 24 hours
    /// to a time-zone-less date and time gives).
    pub open spec fn one_day_later(self) -> Stamp {
        let (y, m, d) = next_date(self.year as int, self.month as int, self.day as int);
        Stamp { year: y as i32, month: m as u32, day: d as u32, ..self }
    }

    /// The last day that a date may have, 31 December of `MAX_YEAR`.
    pub open spec fn on_last_day(self) -> bool {
        self.year == MAX_YEAR && self.month == 12 && self.day == 31
    }
}

/// The calendar day after `(y, m, d)`.
pub open spec fn next_date(y: int, m: int, d: int) -> (int, int, int) {
    if d < days_in_month(y, m) {
        (y, m, d + 1)
    } else if m < 12 {
        (y, m + 1, 1)
    } else {
        (y + 1, 1, 1)
    }
}

/// Chronological order: `a` comes strictly before `b`.
pub open spec fn stamp_lt(a: Stamp, b: Stamp) -> bool {
    if a.year != b.year {
        a.year < b.year
    } else if a.month != b.month {
        a.month < b.month
    } else if a.day != b.day {
        a.day < b.day
    } else if a.hour != b.hour {
        a.hour < b.hour
    } else if a.minute != b.minute {
        a.minute < b.minute
    } else if a.second != b.second {
        a.second < b.second
    } else {
        a.nano < b.nano
    }
}

pub open spec fn stamp_le(a: Stamp, b: Stamp) -> bool {
    stamp_lt(a, b) || a == b
}

/// The years in which a shot is believed to have been taken.
pub open spec fn plausible(s: Stamp) -> bool {
    1980 <= s.year < 2200
}

/// Whether the date of a shot is believable: between 1980 and 2199.
pub fn is_plausible(s: &Stamp) -> (r: bool)
    ensures
        r == plausible(*s),
{
    1980 <= s.year && s.year < 2200
}

fn is_leap_year(year: i32) -> (r: bool)
    requires
        MIN_YEAR <= year,
    ensures
        r == is_leap(year as int),
{
    // Shifted by a multiple of 400 so that the remainders are taken on a
    // non-negative number.
    let y: u64 = (year as i64 + 400_000) as u64;
    assert(y % 4 == (year as int) % 4);
    assert(y % 100 == (year as int) % 100);
    assert(y % 400 == (year as int) % 400);
    (y % 4 == 0 && y % 100 != 0) || y % 400 == 0
}

fn month_length(year: i32, month: u32) -> (r: u32)
    requires
        MIN_YEAR <= year,
    ensures
        r == days_in_month(year as int, month as int),
{
    if month == 2 {
        if is_leap_year(year) {
            29
        } else {
            28
        }
    } else if month == 4 || month == 6 || month == 9 || month == 11 {
        30
    } else {
        31
    }
}

/// `chrono`'s `NaiveDate::from_ymd_opt(year, month, day).is_some()`.
pub fn is_valid_date(year: i32, month: u32, day: u32) -> (r: bool)
    ensures
        r == valid_date(year as int, month as int, day as int),
{
    MIN_YEAR <= year && year <= MAX_YEAR && 1 <= month && month <= 12 && 1 <= day && day
        <= month_length(year, month)
}

/// `a` comes strictly before `b`.
pub fn is_earlier(a: &Stamp, b: &Stamp) -> (r: bool)
    ensures
        r == stamp_lt(*a, *b),
{
    if a.year != b.year {
        a.year < b.year
    } else if a.month != b.month {
        a.month < b.month
    } else if a.day != b.day {
        a.day < b.day
    } else if a.hour != b.hour {
        a.hour < b.hour
    } else if a.minute != b.minute {
        a.minute < b.minute
    } else if a.second != b.second {
        a.second < b.second
    } else {
        a.nano < b.nano
    }
}

impl Stamp {
    /// The same time, 24 hours later. `chrono` panics past its last day,
    /// which the `requires` leaves out.
    pub fn plus_one_day(&self) -> (r: Stamp)
        requires
            self.wf(),
            !self.on_last_day(),
        ensures
            r == self.one_day_later(),
            r.wf(),
    {
        let len = month_length(self.year, self.month);
        if self.day < len {
            Stamp { day: self.day + 1, ..*self }
        } else if self.month < 12 {
            Stamp { month: self.month + 1, day: 1, ..*self }
        } else {
            Stamp { year: self.year + 1, month: 1, day: 1, ..*self }
        }
    }
}

pub proof fn lemma_stamp_order_total(a: Stamp, b: Stamp)
    ensures
        stamp_lt(a, b) || stamp_lt(b, a) || a == b,
        !(stamp_lt(a, b) && stamp_lt(b, a)),
        !stamp_lt(a, a),
{
}

pub proof fn lemma_stamp_lt_transitive(a: Stamp, b: Stamp, c: Stamp)
    requires
        stamp_lt(a, b),
        stamp_lt(b, c),
    ensures
        stamp_lt(a, c),
{
}

/// The calendar day before `(y, m, d)`.
pub open spec fn prev_date(y: int, m: int, d: int) -> (int, int, int) {
    if d > 1 {
        (y, m, d - 1)
    } else if m > 1 {
        (y, m - 1, days_in_month(y, m - 1))
    } else {
        (y - 1, 12, 31)
    }
}

/// The same time of day, on the calendar day before.
pub open spec fn one_day_earlier(s: Stamp) -> Stamp {
    let (y, m, d) = prev_date(s.year as int, s.month as int, s.day as int);
    Stamp { year: y as i32, month: m as u32, day: d as u32, ..s }
}

/// `l` is at most a day away from `u`, either way: what shifting a date
/// and time by a time zone's offset (less than a day) gives.
pub open spec fn within_a_day(l: Stamp, u: Stamp) -> bool {
    stamp_le(one_day_earlier(u), l) && stamp_le(l, u.one_day_later())
}

/// A date and time within a day of one in year `y` lies in year `y - 1`,
/// `y` or `y + 1`.
pub proof fn lemma_within_a_day_year(l: Stamp, u: Stamp)
    requires
        within_a_day(l, u),
        1981 <= u.year <= 2198,
    ensures
        u.year - 1 <= l.year <= u.year + 1,
{
    let e = one_day_earlier(u);
    let f = u.one_day_later();
    assert(e.year >= u.year - 1);
    assert(f.year <= u.year + 1);
}

} // verus!
