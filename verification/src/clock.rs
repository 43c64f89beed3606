//! Calendar readings of an instant, taken from `chrono` in the machine's
//! local time zone, and the proleptic Gregorian calendar they follow.

use vstd::prelude::*;
use chrono::{Datelike, Offset, Timelike};

verus! {

/// The local calendar reading of an instant, as `chrono` gives it for
/// `DateTime<Local>`: proleptic Gregorian year, month, day of month, hour,
/// minute, second, and the ISO 8601 week number.
#[derive(Clone, Copy, Debug, PartialEq, Eq)]
pub struct LocalFields {
    pub year: i32,
    pub month: u32,
    pub day: u32,
    pub hour: u32,
    pub minute: u32,
    pub second: u32,
    pub iso_week: u32,
}

/// The proleptic Gregorian (year, month, day) of day `z`, counted from
/// 1970-01-01 as day 0.
pub open spec fn civil_from_days(z: int) -> (int, int, int) {
    let zz = z + 719468;
    let era = zz / 146097;
    let doe = zz - era * 146097;
    let yoe = (doe - doe / 1460 + doe / 36524 - doe / 146096) / 365;
    let y = yoe + era * 400;
    let doy = doe - (365 * yoe + yoe / 4 - yoe / 100);
    let mp = (5 * doy + 2) / 153;
    let d = doy - (153 * mp + 2) / 5 + 1;
    let m = if mp < 10 { mp + 3 } else { mp - 9 };
    (if m <= 2 { y + 1 } else { y }, m, d)
}

/// The day number (1970-01-01 is day 0) of January 1 of year `y`.
pub open spec fn jan1_days(y: int) -> int {
    let a = y - 1;
    365 * a + a / 4 - a / 100 + a / 400 - 719162
}

/// The weekday mark of December 31 of year `y`: a year has 53 ISO weeks
/// exactly when its mark is 4 or the previous year's mark is 3.
pub open spec fn iso_year_mark(y: int) -> int {
    (y + y / 4 - y / 100 + y / 400) % 7
}

/// The number of ISO 8601 weeks in year `y`.
pub open spec fn iso_weeks_in_year(y: int) -> int {
    if iso_year_mark(y) == 4 || iso_year_mark(y - 1) == 3 {
        53
    } else {
        52
    }
}

/// The ISO 8601 week number of day `z`, which lies in calendar year `y`.
pub open spec fn iso_week_of(y: int, z: int) -> int {
    let ordinal = z - jan1_days(y) + 1;
    let weekday = (z + 3) % 7 + 1;
    let w = (ordinal - weekday + 10) / 7;
    if w < 1 {
        iso_weeks_in_year(y - 1)
    } else if w > iso_weeks_in_year(y) {
        1
    } else {
        w
    }
}

/// `f` is the calendar reading of the instant `t` seconds after
/// 1970-01-01 00:00:00 on the same clock.
#[verifier::opaque]
pub open spec fn is_civil_reading(f: LocalFields, t: int) -> bool {
    let z = t / 86400;
    let s = t % 86400;
    let date = civil_from_days(z);
    &&& f.year == date.0
    &&& f.month == date.1
    &&& f.day == date.2
    &&& f.hour == s / 3600
    &&& f.minute == (s % 3600) / 60
    &&& f.second == s % 60
    &&& f.iso_week == iso_week_of(date.0, z)
}

/// Whether `chrono::DateTime::from_timestamp` accepts a number of seconds
/// and nanoseconds since the Unix epoch: the day lies in the years chrono
/// can hold (262144 BCE to 262142 CE), and the nanoseconds are below a
/// billion, or below two billion in the last second of a minute (a leap
/// second).
pub open spec fn chrono_accepts_timestamp(secs: i64, nanos: u32) -> bool {
    let year = civil_from_days(secs / 86400).0;
    let s = secs % 86400;
    &&& -262143 <= year <= 262142
    &&& nanos < 2_000_000_000
    &&& (nanos < 1_000_000_000 || s % 60 == 59)
}

/// Calls `chrono::DateTime::from_timestamp`; claims it accepts the
/// instant exactly when `chrono_accepts_timestamp` holds.
#[verifier::external_body]
pub(crate) fn timestamp_representable(secs: i64, nanos: u32) -> (r: bool)
    ensures
        r == chrono_accepts_timestamp(secs, nanos),
{
    chrono::DateTime::from_timestamp(secs, nanos).is_some()
}

/// Calls `chrono::DateTime::from_timestamp` and `with_timezone(&Local)`, then
/// reads the calendar fields (`Datelike`, `Timelike`, `iso_week`) and the UTC
/// offset (`offset().fix().local_minus_utc()`). Claims a reading exactly when
/// `from_timestamp` accepts the instant, and that the reading is the calendar
/// reading of the instant moved by the offset, which lies strictly within a
/// day (chrono's `FixedOffset` range). Which offset applies depends on the
/// machine's time zone and is left unsaid.
#[verifier::external_body]
pub(crate) fn local_reading(secs: i64, nanos: u32) -> (r: Option<(LocalFields, i32)>)
    ensures
        r is Some <==> chrono_accepts_timestamp(secs, nanos),
        r matches Some(rd) ==> -86400 < rd.1 < 86400 && is_civil_reading(rd.0, secs + rd.1),
{
    let t = chrono::DateTime::from_timestamp(secs, nanos)?.with_timezone(&chrono::Local);
    let fields = LocalFields {
        year: t.year(),
        month: t.month(),
        day: t.day(),
        hour: t.hour(),
        minute: t.minute(),
        second: t.second(),
        iso_week: t.iso_week().week(),
    };
    Some((fields, t.offset().fix().local_minus_utc()))
}

} // verus!
