//! Facts about the proleptic Gregorian calendar of `civil_from_days`: the
//! date of a day determines the day.

use vstd::prelude::*;
use crate::clock::civil_from_days;

verus! {

/// The day number (1970-01-01 is day 0) of a proleptic Gregorian date.
pub open spec fn days_from_civil(y: int, m: int, d: int) -> int {
    let yy = if m <= 2 { y - 1 } else { y };
    let era = yy / 400;
    let yoe = yy - era * 400;
    let mp = if m > 2 { m - 3 } else { m + 9 };
    let doy = (153 * mp + 2) / 5 + d - 1;
    let doe = yoe * 365 + yoe / 4 - yoe / 100 + doy;
    era * 146097 + doe - 719468
}

proof fn lemma_yoe_bounds(doe: int)
    requires
        0 <= doe < 146097,
    ensures
        ({
            let yoe = (doe - doe / 1460 + doe / 36524 - doe / 146096) / 365;
            let doy = doe - (365 * yoe + yoe / 4 - yoe / 100);
            0 <= yoe < 400 && 0 <= doy < 366
        }),
{
}

proof fn lemma_doy_split(doy: int)
    requires
        0 <= doy < 366,
    ensures
        ({
            let mp = (5 * doy + 2) / 153;
            0 <= mp < 12 && 0 <= doy - (153 * mp + 2) / 5 < 31
        }),
{
}

/// The date of a day has a month from 1 to 12 and a day from 1 to 31, and
/// counting back from that date gives the day again.
pub proof fn lemma_civil_roundtrip(z: int)
    ensures
        ({
            let c = civil_from_days(z);
            &&& 1 <= c.1 <= 12
            &&& 1 <= c.2 <= 31
            &&& days_from_civil(c.0, c.1, c.2) == z
        }),
{
    let zz = z + 719468;
    let era = zz / 146097;
    let doe = zz - era * 146097;
    assert(0 <= doe < 146097);
    lemma_yoe_bounds(doe);
    let yoe = (doe - doe / 1460 + doe / 36524 - doe / 146096) / 365;
    let y = yoe + era * 400;
    let doy = doe - (365 * yoe + yoe / 4 - yoe / 100);
    lemma_doy_split(doy);
    let mp = (5 * doy + 2) / 153;
    let d = doy - (153 * mp + 2) / 5 + 1;
    let m = if mp < 10 { mp + 3 } else { mp - 9 };
    let yr = if m <= 2 { y + 1 } else { y };
    assert(civil_from_days(z) == (yr, m, d));
    let yy = if m <= 2 { yr - 1 } else { yr };
    assert(yy == y);
    assert(yy / 400 == era);
    let mp2 = if m > 2 { m - 3 } else { m + 9 };
    assert(mp2 == mp);
}


proof fn lemma_year_step(y1: int, y2: int)
    requires
        y1 < y2,
    ensures
        ({
            let e1 = y1 / 400;
            let o1 = y1 - e1 * 400;
            let e2 = y2 / 400;
            let o2 = y2 - e2 * 400;
            (e2 * 146097 + o2 * 365 + o2 / 4 - o2 / 100) - (e1 * 146097 + o1 * 365 + o1 / 4 - o1 / 100) >= 269
        }),
{
    let e1 = y1 / 400;
    let e2 = y2 / 400;
    assert(e1 <= e2);
}

/// Two days with the same month and day of month that lie fewer than 269
/// days apart are the same day.
pub proof fn lemma_same_month_day_near(z1: int, z2: int)
    requires
        civil_from_days(z1).1 == civil_from_days(z2).1,
        civil_from_days(z1).2 == civil_from_days(z2).2,
        -269 < z1 - z2 < 269,
    ensures
        z1 == z2,
{
    lemma_civil_roundtrip(z1);
    lemma_civil_roundtrip(z2);
    let c1 = civil_from_days(z1);
    let c2 = civil_from_days(z2);
    let yy1 = if c1.1 <= 2 { c1.0 - 1 } else { c1.0 };
    let yy2 = if c2.1 <= 2 { c2.0 - 1 } else { c2.0 };
    if yy1 < yy2 {
        lemma_year_step(yy1, yy2);
    } else if yy2 < yy1 {
        lemma_year_step(yy2, yy1);
    }
}

/// Two days with the same date are the same day.
pub proof fn lemma_same_date(z1: int, z2: int)
    requires
        civil_from_days(z1) == civil_from_days(z2),
    ensures
        z1 == z2,
{
    lemma_civil_roundtrip(z1);
    lemma_civil_roundtrip(z2);
}

}
