//! What holds of moments, ages and the dates that a clock shows.

use crate::dates::{age_days, chosen, date_hour_later, days_between, earlier, leap, LocalTime, Moment};
use vstd::prelude::*;

verus! {

/// The nanoseconds from one moment to another.
pub open spec fn nanos_between(from: Moment, to: Moment) -> int {
    (to.secs - from.secs) * 1_000_000_000 + (to.nanos - from.nanos)
}

/// An age in days is the whole days that have passed: it has come to a number of days
/// exactly from the nanosecond on at which so many are over, and to the past it counts as
/// to the future.
pub proof fn law_days_between(from: Moment, to: Moment, days: int)
    ensures
        days >= 1 ==> (days_between(from, to) >= days <==> nanos_between(from, to) >= days
            * 86_400_000_000_000),
        days_between(from, to) >= 0 <==> nanos_between(from, to) > -86_400_000_000_000,
        days_between(from, to) == -days_between(to, from),
{
    let n = nanos_between(from, to);
    let d = to.total() - from.total();
    assert(n == d);
    if days >= 1 {
        assert(d >= 0 ==> (d / 86_400_000_000_000int >= days <==> d >= days * 86_400_000_000_000int))
            by (nonlinear_arith);
        assert(d < 0 ==> d < days * 86_400_000_000_000int) by (nonlinear_arith)
            requires
                days >= 1,
        ;
        assert(d < 0 ==> -((-d) / 86_400_000_000_000int) <= 0) by (nonlinear_arith);
    }
}

/// The age of what was trashed, as it is counted.
pub proof fn law_age(from: Moment, to: Moment, r: i64, days: int)
    requires
        call_ensures(age_days, (&from, &to), r),
    ensures
        days >= 1 ==> (r >= days <==> nanos_between(from, to) >= days * 86_400_000_000_000),
{
    law_days_between(from, to, days);
}

/// Moments are ordered by what has passed at them, whatever the local time is.
pub proof fn law_earlier(a: Moment, b: Moment, c: Moment, r: bool)
    requires
        call_ensures(Moment::before, (&a, &b), r),
    ensures
        r == earlier(a, b),
        earlier(a, b) <==> a.secs < b.secs || (a.secs == b.secs && a.nanos < b.nanos),
        !(earlier(a, b) && earlier(b, a)),
        earlier(a, b) && earlier(b, c) ==> earlier(a, c),
        earlier(a, b) ==> !earlier(b, a),
{
}

/// A date that the clock shows once is that moment, one that it shows twice the second of
/// the two; and one that it never shows is taken an hour later, the first of two there.
pub proof fn law_chosen(a: Moment, b: Moment, shifted: LocalTime)
    ensures
        chosen(LocalTime::Single(a), shifted) == Some(a),
        chosen(LocalTime::Ambiguous(a, b), shifted) == Some(b),
        chosen(LocalTime::Gap, LocalTime::Single(a)) == Some(a),
        chosen(LocalTime::Gap, LocalTime::Ambiguous(a, b)) == Some(a),
        chosen(LocalTime::Gap, LocalTime::Gap) is None,
{
}

/// The date an hour later has 3600 seconds more, and no leap second.
pub proof fn law_hour_later(wall: i64, nanos: u32, r: Option<(i64, u32)>)
    requires
        call_ensures(date_hour_later, (wall, nanos), r),
    ensures
        r is Some <==> wall + 3600 <= 8_210_266_876_799,
        r matches Some(d) ==> d.0 == wall + 3600 && (nanos < 1_000_000_000 ==> d.1 == nanos) && (nanos
            >= 1_000_000_000 ==> d.1 == nanos - 1_000_000_000),
{
}

} // verus!
