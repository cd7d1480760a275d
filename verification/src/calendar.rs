//! The proleptic Gregorian calendar, stated over mathematical integers, and
//! the facts about it that the timestamp code relies on.

use vstd::prelude::*;

verus! {

/// Whether `y` is a leap year of the proleptic Gregorian calendar.
pub open spec fn is_leap_year(y: int) -> bool {
    y % 4 == 0 && (y % 100 != 0 || y % 400 == 0)
}

/// 1 for a leap year, 0 otherwise.
pub open spec fn leap_days(y: int) -> int {
    if is_leap_year(y) {
        1
    } else {
        0
    }
}

/// Number of days in month `m` (1-12) of year `y`.
pub open spec fn days_in_month(y: int, m: int) -> int {
    if m == 2 {
        28 + leap_days(y)
    } else if m == 4 || m == 6 || m == 9 || m == 11 {
        30
    } else {
        31
    }
}

/// Number of days of year `y` that come before the first day of month `m`.
pub open spec fn days_before_month(y: int, m: int) -> int {
    let jan_based: int = if m <= 1 {
        0
    } else if m == 2 {
        31
    } else if m == 3 {
        59
    } else if m == 4 {
        90
    } else if m == 5 {
        120
    } else if m == 6 {
        151
    } else if m == 7 {
        181
    } else if m == 8 {
        212
    } else if m == 9 {
        243
    } else if m == 10 {
        273
    } else if m == 11 {
        304
    } else {
        334
    };
    if m > 2 {
        jan_based + leap_days(y)
    } else {
        jan_based
    }
}

/// A day count for 1 January of year `y`: `365 * y` plus the number of leap
/// years before `y` (counted from year 0, signed for negative years), minus
/// one. Only differences of it are meaningful; see
/// [`lemma_days_before_year_step`].
pub open spec fn days_before_year(y: int) -> int {
    365 * y + (y - 1) / 4 - (y - 1) / 100 + (y - 1) / 400
}

/// Whether `(y, m, d)` is a date of the proleptic Gregorian calendar.
pub open spec fn is_valid_date(y: int, m: int, d: int) -> bool {
    1 <= m <= 12 && 1 <= d <= days_in_month(y, m)
}

/// Number of days from 1970-01-01 to the date `(y, m, d)` (negative before).
pub open spec fn days_since_epoch(y: int, m: int, d: int) -> int {
    days_before_year(y) - days_before_year(1970) + days_before_month(y, m) + (d - 1)
}

/// The date that lies `days` days after 1970-01-01 (before it when
/// negative), as `(year, month, day)`.
pub open spec fn civil_date(days: int) -> (int, int, int) {
    choose|t: (int, int, int)| is_valid_date(t.0, t.1, t.2) && days_since_epoch(t.0, t.1, t.2) == days
}

/// Year `y` is followed by year `y + 1` after exactly its number of days.
pub proof fn lemma_days_before_year_step(y: int)
    ensures
        days_before_year(y + 1) == days_before_year(y) + 365 + leap_days(y),
{
    lemma_count_step(y - 1);
}

/// Within a year, month `m` is followed by month `m + 1` after exactly its
/// number of days.
pub proof fn lemma_days_before_month_step(y: int, m: int)
    requires
        1 <= m < 12,
    ensures
        days_before_month(y, m + 1) == days_before_month(y, m) + days_in_month(y, m),
{
}

/// The counts of multiples of 4, 100 and 400 up to `n` grow by one exactly
/// at the multiples.
proof fn lemma_count_step(n: int)
    ensures
        (n + 1) / 4 == n / 4 + (if (n + 1) % 4 == 0 { 1int } else { 0 }),
        (n + 1) / 100 == n / 100 + (if (n + 1) % 100 == 0 { 1int } else { 0 }),
        (n + 1) / 400 == n / 400 + (if (n + 1) % 400 == 0 { 1int } else { 0 }),
        (n + 1) % 400 == 0 ==> (n + 1) % 100 == 0,
        (n + 1) % 100 == 0 ==> (n + 1) % 4 == 0,
        leap_days(n + 1) == (if (n + 1) % 4 == 0 { 1int } else { 0 }) - (if (n + 1) % 100 == 0 {
            1int
        } else {
            0
        }) + (if (n + 1) % 400 == 0 { 1int } else { 0 }),
{
}

/// Days from 1 March of year 0 of a 400-year era to 1 March of its year `y`
/// (`0 <= y <= 400`).
spec fn era_march_days(y: int) -> int {
    365 * y + y / 4 - y / 100 + y / 400
}

/// One more era year adds the length of the year from March to March, which
/// holds the leap day of the next calendar year.
proof fn lemma_era_step(y: int)
    requires
        0 <= y < 400,
    ensures
        era_march_days(y + 1) == era_march_days(y) + 365 + leap_days(y + 1),
{
    lemma_count_step(y);
}

/// Every day of an era lies in some era year `y`, at offset `d` from its
/// 1 March.
proof fn lemma_era_split(doe: int, y0: int) -> (r: (int, int))
    requires
        0 <= y0 <= 399,
        era_march_days(y0) <= doe <= 146096,
    ensures
        y0 <= r.0 <= 399,
        0 <= r.1 <= 364 + leap_days(r.0 + 1),
        doe == era_march_days(r.0) + r.1,
    decreases 400 - y0,
{
    lemma_era_step(y0);
    if doe < era_march_days(y0) + 365 + leap_days(y0 + 1) {
        (y0, doe - era_march_days(y0))
    } else {
        lemma_era_split(doe, y0 + 1)
    }
}

/// The year-of-era formula maps day `d` of era year `y` back to `y`.
proof fn lemma_year_of_era(y: int, d: int)
    requires
        0 <= y <= 399,
        0 <= d <= 364 + leap_days(y + 1),
    ensures
        ({
            let doe = era_march_days(y) + d;
            &&& 0 <= doe <= 146096
            &&& (doe - doe / 1460 + doe / 36524 - doe / 146096) / 365 == y
        }),
{
    let c = y / 100;
    let a2 = (y % 100) / 4;
    let b = y % 4;
    assert(y == 100 * c + 4 * a2 + b);
    assert(0 <= c <= 3 && 0 <= a2 <= 24 && 0 <= b <= 3);
    assert(y / 4 == 25 * c + a2);
    assert(y / 400 == 0);
    assert((y + 1) % 4 == 0 <==> b == 3);
    assert((y + 1) % 100 == 0 <==> (b == 3 && a2 == 24));
    assert((y + 1) % 400 == 0 <==> (b == 3 && a2 == 24 && c == 3));
    let doe = era_march_days(y) + d;
    let s = 365 * b + 24 * c + a2 + d;
    assert(doe == 1460 * (25 * c + a2) + s);
    assert(0 <= s < 2920);
    assert(doe / 1460 == 25 * c + a2 + (if s >= 1460 { 1int } else { 0 }));
    let t = doe - doe / 1460 + doe / 36524 - doe / 146096;
    if y == 399 && d == 365 {
        assert(doe == 146096);
        assert(t == 365 * 399 + 364);
    } else {
        assert(doe == 36524 * c + (1461 * a2 + 365 * b + d));
        assert(1461 * a2 + 365 * b + d < 36524);
        assert(doe / 36524 == c);
        assert(doe / 146096 == 0);
        assert(t == 365 * y + d - (if s >= 1460 { 1int } else { 0 }));
    }
    assert(365 * y <= t <= 365 * y + 364);
}

/// The civil date of day `days` as computed by Howard Hinnant's
/// `civil_from_days`, over mathematical integers.
pub open spec fn civil_fields(days: int) -> (int, int, int) {
    let z = days + 719_468;
    let era = z / 146_097;
    let doe = z - era * 146_097;
    let yoe = (doe - doe / 1460 + doe / 36_524 - doe / 146_096) / 365;
    let doy = doe - (365 * yoe + yoe / 4 - yoe / 100);
    let mp = (5 * doy + 2) / 153;
    let day = doy - (153 * mp + 2) / 5 + 1;
    let month = if mp < 10 {
        mp + 3
    } else {
        mp - 9
    };
    let year = yoe + era * 400 + (if month <= 2 { 1int } else { 0 });
    (year, month, day)
}

/// 1 January after the March-based year `400 * era + y` starts 306 days after
/// that year's 1 March.
proof fn lemma_march_year_end(era: int, y: int)
    requires
        0 <= y <= 399,
    ensures
        days_before_year(era * 400 + y + 1) == 146_097 * era + era_march_days(y) + 365,
        leap_days(era * 400 + y + 1) == leap_days(y + 1),
{
    let n = era * 400 + y;
    assert(n / 4 == era * 100 + y / 4);
    assert(n / 100 == era * 4 + y / 100);
    assert(n / 400 == era + y / 400);
    assert((n + 1) % 4 == (y + 1) % 4);
    assert((n + 1) % 100 == (y + 1) % 100);
    assert((n + 1) % 400 == (y + 1) % 400);
}

/// Splitting a March-based day of year `doy` into month and day: for
/// `mp = (5 * doy + 2) / 153`, months March to December of the same year
/// and January, February of the next.
proof fn lemma_month_of_march_day(doy: int, next_leap: int)
    requires
        0 <= next_leap <= 1,
        0 <= doy <= 364 + next_leap,
    ensures
        ({
            let mp = (5 * doy + 2) / 153;
            let day = doy - (153 * mp + 2) / 5 + 1;
            &&& 0 <= mp <= 11
            &&& mp < 10 ==> {
                &&& (153 * mp + 2) / 5 == days_before_month(0, mp + 3) - 60
                &&& 1 <= day <= days_in_month(0, mp + 3)
            }
            &&& mp == 10 ==> (153 * mp + 2) / 5 == 306 && 1 <= day <= 31
            &&& mp == 11 ==> (153 * mp + 2) / 5 == 337 && 1 <= day <= 28 + next_leap
        }),
{
    let mp = (5 * doy + 2) / 153;
    assert(153 * mp <= 5 * doy + 2 < 153 * mp + 153);
    assert(0 <= mp <= 11);
    assert(leap_days(0) == 1);
}

/// The computed fields form a valid date lying `days` days after the epoch.
#[verifier::rlimit(40)]
pub proof fn lemma_civil_fields(days: int)
    ensures
        ({
            let (y, m, d) = civil_fields(days);
            &&& is_valid_date(y, m, d)
            &&& days_since_epoch(y, m, d) == days
        }),
{
    let z = days + 719_468;
    let era = z / 146_097;
    let doe = z - era * 146_097;
    assert(0 <= doe <= 146_096);
    let (y, d) = lemma_era_split(doe, 0);
    lemma_year_of_era(y, d);
    let yoe = (doe - doe / 1460 + doe / 36_524 - doe / 146_096) / 365;
    assert(yoe == y);
    let doy = doe - (365 * yoe + yoe / 4 - yoe / 100);
    assert(doy == d);
    let march_year = era * 400 + y;
    lemma_march_year_end(era, y);
    lemma_month_of_march_day(doy, leap_days(y + 1));
    lemma_days_before_year_step(march_year);
    let mp = (5 * doy + 2) / 153;
    let (yy, m, dd) = civil_fields(days);
    assert(days_before_year(1970) == 719_527);
    if mp < 10 {
        assert(yy == march_year);
        assert(days_before_month(yy, m) == days_before_month(0, m) - 1 + leap_days(yy));
    } else {
        assert(yy == march_year + 1);
    }
}

/// Later years start later: year `a` ends no later than year `b > a` starts.
proof fn lemma_days_before_year_increasing(a: int, b: int)
    requires
        a < b,
    ensures
        days_before_year(a) + 365 + leap_days(a) <= days_before_year(b),
    decreases b - a,
{
    lemma_days_before_year_step(a);
    if b > a + 1 {
        lemma_days_before_year_increasing(a + 1, b);
    }
}

/// Distinct dates lie on distinct days: `days_since_epoch` is one-to-one on
/// valid dates.
pub proof fn lemma_days_since_epoch_injective(y1: int, m1: int, d1: int, y2: int, m2: int, d2: int)
    requires
        is_valid_date(y1, m1, d1),
        is_valid_date(y2, m2, d2),
        days_since_epoch(y1, m1, d1) == days_since_epoch(y2, m2, d2),
    ensures
        y1 == y2 && m1 == m2 && d1 == d2,
{
    assert(0 <= days_before_month(y1, m1) + d1 - 1 < 365 + leap_days(y1));
    assert(0 <= days_before_month(y2, m2) + d2 - 1 < 365 + leap_days(y2));
    if y1 < y2 {
        lemma_days_before_year_increasing(y1, y2);
    } else if y2 < y1 {
        lemma_days_before_year_increasing(y2, y1);
    }
    assert(y1 == y2);
    if m1 < m2 {
        assert(days_before_month(y1, m1) + days_in_month(y1, m1) <= days_before_month(y1, m2));
    } else if m2 < m1 {
        assert(days_before_month(y1, m2) + days_in_month(y1, m2) <= days_before_month(y1, m1));
    }
}

/// The date `days` days after the epoch is the one computed by
/// [`civil_fields`].
pub proof fn lemma_civil_date_is_civil_fields(days: int)
    ensures
        civil_date(days) == civil_fields(days),
        is_valid_date(civil_date(days).0, civil_date(days).1, civil_date(days).2),
        days_since_epoch(civil_date(days).0, civil_date(days).1, civil_date(days).2) == days,
{
    lemma_civil_fields(days);
    let f = civil_fields(days);
    let t = civil_date(days);
    assert(is_valid_date(t.0, t.1, t.2) && days_since_epoch(t.0, t.1, t.2) == days);
    lemma_days_since_epoch_injective(t.0, t.1, t.2, f.0, f.1, f.2);
}

} // verus!
