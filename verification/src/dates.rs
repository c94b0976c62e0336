//! Moments, how they are written, and how a date without a time zone is read.

use crate::text::is_digit;
use vstd::prelude::*;

verus! {

/// The first second that a date can be of.
pub const FIRST_SECOND: i64 = -8_334_601_228_800;

/// The last second that a date can be of.
pub const LAST_SECOND: i64 = 8_210_266_876_799;

/// The first second of the year 0.
pub const YEAR_0: i64 = -62_167_219_200;

/// The last second of the year 9999.
pub const YEAR_9999: i64 = 253_402_300_799;

pub const NANOS: u32 = 1_000_000_000;

/// A moment, with the offset of the local time from UTC at it.
#[derive(Debug, Clone, Copy, PartialEq, Eq, Structural)]
pub struct Moment {
    /// Seconds since the epoch.
    pub secs: i64,
    /// Nanoseconds in that second; a leap second counts on from a whole second.
    pub nanos: u32,
    /// Seconds by which the local time is ahead.
    pub offset: i32,
}

/// A second and its nanoseconds that a date can be of.
pub open spec fn dated(secs: int, nanos: int) -> bool {
    &&& FIRST_SECOND <= secs <= LAST_SECOND
    &&& 0 <= nanos
    &&& nanos < NANOS || (nanos < 2 * NANOS && secs % 60 == 59)
}

impl Moment {
    /// The seconds that a local clock shows.
    pub open spec fn wall(self) -> int {
        self.secs + self.offset
    }

    pub open spec fn valid(self) -> bool {
        &&& -86_400 < self.offset < 86_400
        &&& FIRST_SECOND <= self.secs <= LAST_SECOND
        &&& dated(self.wall(), self.nanos as int)
    }

    /// Nanoseconds since the epoch.
    pub open spec fn total(self) -> int {
        self.secs * NANOS + self.nanos
    }
}

/// What a local clock that shows a date means.
#[derive(Debug, Clone, Copy, PartialEq, Eq, Structural)]
pub enum LocalTime {
    /// One moment.
    Single(Moment),
    /// One of two moments, in the order that `chrono` gives them: the clock was set back.
    Ambiguous(Moment, Moment),
    /// None: the clock was set forward over it.
    Gap,
}

/// The text of a date in a layout.
pub uninterp spec fn date_text(layout: Seq<char>, wall: int, nanos: int) -> Seq<char>;

/// The second and nanoseconds that a text such as `2026-03-20T14:30:00` is the date of.
pub uninterp spec fn date_value(t: Seq<char>) -> Option<(int, int)>;

/// The nanoseconds that a date written to the second keeps: a leap second, and nothing
/// else.
pub open spec fn leap(nanos: int) -> int {
    if nanos >= NANOS {
        NANOS as int
    } else {
        0
    }
}

/// A character of a date in the layout `%Y-%m-%dT%H:%M:%S`.
pub open spec fn date_char(c: char) -> bool {
    is_digit(c) || c == '+' || c == '-' || c == 'T' || c == ':'
}

pub open spec fn is_layout(layout: Seq<char>) -> bool {
    ||| layout == "%Y-%m-%dT%H:%M:%S"@
    ||| layout == "%Y%m%d%H%M%S"@
    ||| layout == "%Y-%m-%d %H:%M"@
    ||| layout == "%Y-%m-%d %H:%M:%S"@
}

/// `chrono::DateTime::format` writes a date in a layout. Of the years 0 to 9999 it writes
/// four digits, of any other year a sign and the digits that it takes, and of every other
/// part two; a leap second is the second 60. What it writes in the layout
/// `%Y-%m-%dT%H:%M:%S` gives the date back to the second when it is read.
#[verifier::external_body]
pub(crate) fn format_date(wall: i64, nanos: u32, layout: &str) -> (r: String)
    requires
        dated(wall as int, nanos as int),
        is_layout(layout@),
    ensures
        r@ == date_text(layout@, wall as int, nanos as int),
        layout@ == "%Y-%m-%dT%H:%M:%S"@ ==> {
            &&& forall|i: int| 0 <= i < r@.len() ==> date_char(#[trigger] r@[i])
            &&& date_value(r@) == Some((wall as int, leap(nanos as int)))
            &&& YEAR_0 <= wall <= YEAR_9999 ==> r@.len() == 19
        },
        layout@ == "%Y%m%d%H%M%S"@ && YEAR_0 <= wall <= YEAR_9999 ==> r@.len() == 14 && forall|
            i: int,
        |
            0 <= i < 14 ==> is_digit(#[trigger] r@[i]),
{
    chrono::DateTime::from_timestamp(wall, nanos).expect("a date").format(layout).to_string()
}

/// `chrono::NaiveDateTime::parse_from_str` reads a date in the layout
/// `%Y-%m-%dT%H:%M:%S`. What it reads has no fraction of a second, but for a leap second,
/// which it takes for a whole second more than the 59th.
#[verifier::external_body]
pub(crate) fn parse_date(t: &str) -> (r: Option<(i64, u32)>)
    ensures
        match r {
            Some((w, n)) => date_value(t@) == Some((w as int, n as int)) && dated(
                w as int,
                n as int,
            ) && (n == 0 || n == NANOS),
            None => date_value(t@) is None,
        },
{
    chrono::NaiveDateTime::parse_from_str(t, "%Y-%m-%dT%H:%M:%S").ok().map(
        |n| (n.and_utc().timestamp(), n.and_utc().timestamp_subsec_nanos()),
    )
}

/// `chrono::NaiveDateTime::and_local_timezone` finds the moments at which a local clock
/// shows a date. Which they are is up to the time zone of the machine; at each of them
/// the clock shows that date.
#[verifier::external_body]
pub fn local_time(wall: i64, nanos: u32) -> (r: LocalTime)
    requires
        dated(wall as int, nanos as int),
    ensures
        match r {
            LocalTime::Single(m) => m.valid() && m.wall() == wall && m.nanos == nanos,
            LocalTime::Ambiguous(a, b) => a.valid() && a.wall() == wall && a.nanos == nanos
                && b.valid() && b.wall() == wall && b.nanos == nanos,
            LocalTime::Gap => true,
        },
{
    let naive = chrono::DateTime::from_timestamp(wall, nanos).expect("a date").naive_utc();
    let moment = |d: chrono::DateTime<chrono::Local>| Moment {
        secs: d.timestamp(),
        nanos: d.timestamp_subsec_nanos(),
        offset: d.offset().local_minus_utc(),
    };
    match naive.and_local_timezone(chrono::Local) {
        chrono::LocalResult::Single(d) => LocalTime::Single(moment(d)),
        chrono::LocalResult::Ambiguous(a, b) => LocalTime::Ambiguous(moment(a), moment(b)),
        chrono::LocalResult::None => LocalTime::Gap,
    }
}

/// `chrono::Local::now` gives the present moment.
#[verifier::external_body]
pub fn local_now() -> (r: Moment)
    ensures
        r.valid(),
{
    let d = chrono::Local::now();
    Moment {
        secs: d.timestamp(),
        nanos: d.timestamp_subsec_nanos(),
        offset: d.offset().local_minus_utc(),
    }
}

impl Moment {
    /// The present moment, as the clock gives it.
    pub fn now() -> (r: Self)
        ensures
            call_ensures(local_now, (), r),
            r.valid(),
    {
        local_now()
    }

    /// The moment as a local clock shows it, in a layout.
    pub fn format(&self, layout: &str) -> (r: String)
        requires
            self.valid(),
            is_layout(layout@),
        ensures
            r@ == date_text(layout@, self.wall(), self.nanos as int),
    {
        format_date(self.secs + self.offset as i64, self.nanos, layout)
    }

    /// Whether this moment comes before another.
    pub fn before(&self, other: &Moment) -> (r: bool)
        ensures
            r == earlier(*self, *other),
    {
        self.secs < other.secs || (self.secs == other.secs && self.nanos < other.nanos)
    }
}

/// The order of moments: by second, then by what has passed of it.
pub open spec fn earlier(a: Moment, b: Moment) -> bool {
    a.secs < b.secs || (a.secs == b.secs && a.nanos < b.nanos)
}

pub open spec fn day_nanos() -> int {
    86_400 * (NANOS as int)
}

/// Whole days from one moment to another; negative where the second comes first.
pub open spec fn days_between(from: Moment, to: Moment) -> int {
    let d = to.total() - from.total();
    if d >= 0 {
        d / day_nanos()
    } else {
        -((-d) / day_nanos())
    }
}

/// Whole days from one moment to another.
pub fn age_days(from: &Moment, to: &Moment) -> (r: i64)
    ensures
        r == days_between(*from, *to),
{
    let a: i128 = from.secs as i128 * 1_000_000_000 + from.nanos as i128;
    let b: i128 = to.secs as i128 * 1_000_000_000 + to.nanos as i128;
    let day: i128 = 86_400_000_000_000;
    let r: i128 = if b >= a {
        (b - a) / day
    } else {
        -((a - b) / day)
    };
    assert(-1_000_000_000_000_000 < r < 1_000_000_000_000_000);
    r as i64
}

/// The moment that a date is taken for: the second where there are two, and where there is
/// none that of the date an hour later, the first where there are two.
pub open spec fn chosen(first: LocalTime, shifted: LocalTime) -> Option<Moment> {
    match first {
        LocalTime::Single(m) => Some(m),
        LocalTime::Ambiguous(_, latest) => Some(latest),
        LocalTime::Gap => match shifted {
            LocalTime::Single(m) => Some(m),
            LocalTime::Ambiguous(earliest, _) => Some(earliest),
            LocalTime::Gap => None,
        },
    }
}

/// The moment that a date is taken for, from what the clock means at it and an hour later.
pub fn choose_moment(first: LocalTime, shifted: LocalTime) -> (r: Option<Moment>)
    ensures
        r == chosen(first, shifted),
{
    match first {
        LocalTime::Single(m) => Some(m),
        LocalTime::Ambiguous(_, latest) => Some(latest),
        LocalTime::Gap => match shifted {
            LocalTime::Single(m) => Some(m),
            LocalTime::Ambiguous(earliest, _) => Some(earliest),
            LocalTime::Gap => None,
        },
    }
}

/// The clock shows a date at a moment: as it stands, or an hour later, where a leap second
/// is the first of the minute that follows it.
pub open spec fn shown_at(wall: int, nanos: int, m: Moment) -> bool {
    ||| m.wall() == wall && m.nanos == nanos
    ||| m.wall() == wall + 3600 && m.nanos == nanos - leap(nanos)
}

/// `chrono::Local` gives the offset of the local time from UTC at a second. What it is, is
/// up to the time zone of the machine; it is less than a day.
#[verifier::external_body]
pub fn local_offset(secs: i64) -> (r: i32)
    requires
        FIRST_SECOND <= secs <= LAST_SECOND,
    ensures
        -86_400 < r < 86_400,
{
    let utc = chrono::DateTime::from_timestamp(secs, 0).expect("a date").naive_utc();
    chrono::TimeZone::offset_from_utc_datetime(&chrono::Local, &utc).local_minus_utc()
}

/// The date an hour after another, where there is one. A leap second counts as the second
/// before it.
pub open spec fn hour_later(wall: int, nanos: int) -> Option<(int, int)> {
    if wall <= LAST_SECOND - 3600 {
        Some((wall + 3600, nanos - leap(nanos)))
    } else {
        None
    }
}

/// The date an hour after another.
pub fn date_hour_later(wall: i64, nanos: u32) -> (r: Option<(i64, u32)>)
    ensures
        match r {
            Some((w, n)) => hour_later(wall as int, nanos as int) == Some((w as int, n as int)),
            None => hour_later(wall as int, nanos as int) is None,
        },
{
    if wall <= LAST_SECOND - 3600 {
        let rest: u32 = if nanos >= NANOS {
            nanos - NANOS
        } else {
            nanos
        };
        Some((wall + 3600, rest))
    } else {
        None
    }
}

/// `first` is what the local clock was found to mean at a date, and `shifted` at the date an
/// hour later; where there is no such date, no moment is.
pub open spec fn clock_answers(wall: int, nanos: int, first: LocalTime, shifted: LocalTime) -> bool {
    &&& call_ensures(local_time, (wall as i64, nanos as u32), first)
    &&& match hour_later(wall, nanos) {
        Some(d) => call_ensures(local_time, (d.0 as i64, d.1 as u32), shifted),
        None => shifted is Gap,
    }
}

/// The moment at which the local clock shows a date, or the date an hour later where it was
/// set forward over it. Whether there is one is up to the time zone of the machine: the
/// moment is the one that is chosen from what the clock was found to mean at those two
/// dates.
pub fn resolve(wall: i64, nanos: u32) -> (r: Option<Moment>)
    requires
        dated(wall as int, nanos as int),
    ensures
        exists|first: LocalTime, shifted: LocalTime|
            clock_answers(wall as int, nanos as int, first, shifted) && r == #[trigger] chosen(
                first,
                shifted,
            ),
        r matches Some(m) ==> m.valid() && shown_at(wall as int, nanos as int, m),
{
    let first = local_time(wall, nanos);
    let shifted = match date_hour_later(wall, nanos) {
        Some((w, n)) => local_time(w, n),
        None => LocalTime::Gap,
    };
    choose_moment(first, shifted)
}

} // verus!
