//! Wall-clock timestamps: reading the system clock, splitting a microsecond
//! count into calendar fields, and RFC 3339 text.

use std::time::{Duration, SystemTime, SystemTimeError};

use vstd::prelude::*;

use crate::calendar::{
    civil_date, civil_fields, days_since_epoch, is_valid_date, lemma_civil_date_is_civil_fields,
};
use crate::text::{
    decimal, lemma_padded_len, pad_left, pow10, push_char, push_padded, push_zero_padded_signed, zero_padded,
};

verus! {

const MICROS_PER_SECOND: i128 = 1_000_000;

const MICROS_PER_MINUTE: i128 = 60_000_000;

const MICROS_PER_HOUR: i128 = 3_600_000_000;

const MICROS_PER_DAY: i128 = 86_400_000_000;

/// A broken-down wall-clock time with microsecond precision and an explicit
/// UTC offset.
#[derive(Debug, Clone, Copy, PartialEq, Eq, Structural)]
pub struct Timestamp {
    /// Calendar year, e.g. `2026`.
    pub year: i32,
    /// Calendar month, 1-12.
    pub month: u8,
    /// Day of month, 1-31.
    pub day: u8,
    /// Hour of day, 0-23.
    pub hour: u8,
    /// Minute of hour, 0-59.
    pub minute: u8,
    /// Second of minute, 0-59.
    pub second: u8,
    /// Microsecond within the second, 0-999_999.
    pub microsecond: u32,
    /// Offset from UTC in seconds. `0` means UTC.
    pub offset_seconds: i32,
}

/// The largest magnitude of a system clock reading in microseconds: a
/// duration of `u64::MAX` seconds and 999_999 microseconds.
pub open spec fn max_clock_micros() -> int {
    18_446_744_073_709_551_615int * 1_000_000 + 999_999
}

/// The timestamp for `micros` microseconds since 1970-01-01T00:00:00 (local
/// time, already shifted by the offset), labelled with `offset_seconds`.
///
/// The date is the calendar date of the day containing `micros` (the year
/// truncated to 32 bits as `as i32` does); the time of day splits the
/// remaining microseconds into hours, minutes, seconds and microseconds.
pub open spec fn timestamp_at(micros: int, offset_seconds: i32) -> Timestamp {
    let date = civil_date(micros / 86_400_000_000);
    let tod = micros % 86_400_000_000;
    Timestamp {
        year: date.0 as i32,
        month: date.1 as u8,
        day: date.2 as u8,
        hour: (tod / 3_600_000_000) as u8,
        minute: (tod % 3_600_000_000 / 60_000_000) as u8,
        second: (tod % 60_000_000 / 1_000_000) as u8,
        microsecond: (tod % 1_000_000) as u32,
        offset_seconds,
    }
}

/// The fields of a timestamp lie in their documented ranges and add back up
/// to the microsecond count it was made from: the date is the valid
/// calendar date `days_since_epoch` days after 1970-01-01 (its year, before
/// truncation to `i32`, is `civil_date(..).0`) and the time of day is the
/// rest.
pub proof fn lemma_timestamp_at_is_exact(micros: int, offset_seconds: i32)
    ensures
        ({
            let t = timestamp_at(micros, offset_seconds);
            let year = civil_date(micros / 86_400_000_000).0;
            &&& t.year == year as i32
            &&& is_valid_date(year, t.month as int, t.day as int)
            &&& 1 <= t.month <= 12 && 1 <= t.day <= 31
            &&& t.hour < 24 && t.minute < 60 && t.second < 60 && t.microsecond < 1_000_000
            &&& t.offset_seconds == offset_seconds
            &&& days_since_epoch(year, t.month as int, t.day as int) * 86_400_000_000 + t.hour
                * 3_600_000_000 + t.minute * 60_000_000 + t.second * 1_000_000 + t.microsecond
                == micros
        }),
{
    let days = micros / 86_400_000_000;
    lemma_civil_date_is_civil_fields(days);
    let tod = micros % 86_400_000_000;
    assert(micros == days * 86_400_000_000 + tod);
    assert(tod == (tod / 3_600_000_000) * 3_600_000_000 + (tod % 3_600_000_000 / 60_000_000)
        * 60_000_000 + (tod % 60_000_000 / 1_000_000) * 1_000_000 + tod % 1_000_000);
}

/// The timestamp for the UTC clock reading `utc_micros` shifted by
/// `offset_seconds`.
pub open spec fn shifted_timestamp(utc_micros: int, offset_seconds: i32) -> Timestamp {
    timestamp_at(utc_micros + offset_seconds * 1_000_000, offset_seconds)
}

/// A shifted timestamp shows the wall-clock time `offset_seconds` ahead of
/// the UTC reading and carries that offset: its date and time of day,
/// counted in microseconds since the epoch, less the offset, give back the
/// UTC reading.
pub proof fn lemma_shift_applies_offset(utc_micros: int, offset_seconds: i32)
    ensures
        shifted_timestamp(utc_micros, offset_seconds).offset_seconds == offset_seconds,
        exists|year: int|
            year as i32 == shifted_timestamp(utc_micros, offset_seconds).year && #[trigger] days_since_epoch(
                year,
                shifted_timestamp(utc_micros, offset_seconds).month as int,
                shifted_timestamp(utc_micros, offset_seconds).day as int,
            ) * 86_400_000_000 + shifted_timestamp(utc_micros, offset_seconds).hour * 3_600_000_000
                + shifted_timestamp(utc_micros, offset_seconds).minute * 60_000_000 + shifted_timestamp(
                utc_micros,
                offset_seconds,
            ).second * 1_000_000 + shifted_timestamp(utc_micros, offset_seconds).microsecond
                - offset_seconds * 1_000_000 == utc_micros,
{
    let wall = utc_micros + offset_seconds * 1_000_000;
    lemma_timestamp_at_is_exact(wall, offset_seconds);
    let t = shifted_timestamp(utc_micros, offset_seconds);
    let year = civil_date(wall / 86_400_000_000).0;
    assert(days_since_epoch(year, t.month as int, t.day as int) * 86_400_000_000 + t.hour
        * 3_600_000_000 + t.minute * 60_000_000 + t.second * 1_000_000 + t.microsecond == wall);
}

impl Timestamp {
    /// The current wall-clock time shifted by `offset_seconds` relative to
    /// UTC. Pass `0` for UTC, or e.g. `19800` for UTC+05:30.
    ///
    /// Whatever the clock reads, the result is the timestamp of that reading
    /// shifted by the offset.
    pub fn now(offset_seconds: i32) -> (t: Timestamp)
        ensures
            exists|m: int|
                -max_clock_micros() <= m <= max_clock_micros() && t == #[trigger] shifted_timestamp(
                    m,
                    offset_seconds,
                ),
    {
        Timestamp::from_clock_reading(unix_micros(), offset_seconds)
    }

    /// The timestamp of the UTC clock reading `utc_micros` (microseconds
    /// since the epoch) shifted by `offset_seconds`: the wall-clock time that
    /// far ahead of UTC, labelled with the offset.
    pub fn from_clock_reading(utc_micros: i128, offset_seconds: i32) -> (t: Timestamp)
        requires
            -max_clock_micros() <= utc_micros <= max_clock_micros(),
        ensures
            t == shifted_timestamp(utc_micros as int, offset_seconds),
    {
        let micros = utc_micros + (offset_seconds as i128) * MICROS_PER_SECOND;
        from_unix_micros(micros, offset_seconds)
    }

    /// The RFC 3339 text of the timestamp, e.g.
    /// `2026-08-13T04:49:00.123456Z` or `2026-08-13T10:19:00.000000+05:30`.
    pub open spec fn text(self) -> Seq<char> {
        zero_padded(self.year as int, 4) + seq!['-'] + pad_left(decimal(self.month as nat), 2, '0')
            + seq!['-'] + pad_left(decimal(self.day as nat), 2, '0') + seq!['T'] + pad_left(
            decimal(self.hour as nat),
            2,
            '0',
        ) + seq![':'] + pad_left(decimal(self.minute as nat), 2, '0') + seq![':'] + pad_left(
            decimal(self.second as nat),
            2,
            '0',
        ) + seq!['.'] + pad_left(decimal(self.microsecond as nat), 6, '0') + offset_text(
            self.offset_seconds as int,
        )
    }

    /// The RFC 3339 text of the timestamp (what `Display` gives).
    pub fn to_string(&self) -> (s: String)
        ensures
            s@ == self.text(),
    {
        let mut out = String::new();
        push_zero_padded_signed(&mut out, self.year as i64, 4);
        push_char(&mut out, '-');
        push_padded(&mut out, self.month as u64, 2, '0');
        push_char(&mut out, '-');
        push_padded(&mut out, self.day as u64, 2, '0');
        push_char(&mut out, 'T');
        push_padded(&mut out, self.hour as u64, 2, '0');
        push_char(&mut out, ':');
        push_padded(&mut out, self.minute as u64, 2, '0');
        push_char(&mut out, ':');
        push_padded(&mut out, self.second as u64, 2, '0');
        push_char(&mut out, '.');
        push_padded(&mut out, self.microsecond as u64, 6, '0');
        let ghost before_offset = out@;
        push_offset(&mut out, self.offset_seconds);
        assert(out@ =~= self.text());
        out
    }
}

/// Appends the UTC offset suffix of `offset_seconds`.
fn push_offset(out: &mut String, offset_seconds: i32)
    ensures
        final(out)@ == old(out)@ + offset_text(offset_seconds as int),
{
    if offset_seconds == 0 {
        push_char(out, 'Z');
    } else {
        let sign = if offset_seconds < 0 {
            '-'
        } else {
            '+'
        };
        let abs: u64 = if offset_seconds < 0 {
            (-(offset_seconds as i64)) as u64
        } else {
            offset_seconds as u64
        };
        push_char(out, sign);
        push_padded(out, abs / 3600, 2, '0');
        push_char(out, ':');
        push_padded(out, (abs % 3600) / 60, 2, '0');
    }
    assert(out@ =~= old(out)@ + offset_text(offset_seconds as int));
}

/// The UTC offset suffix: `Z` for zero, otherwise a sign and `HH:MM`.
pub open spec fn offset_text(offset_seconds: int) -> Seq<char> {
    if offset_seconds == 0 {
        seq!['Z']
    } else {
        let abs = if offset_seconds < 0 {
            -offset_seconds
        } else {
            offset_seconds
        };
        seq![if offset_seconds < 0 { '-' } else { '+' }] + pad_left(decimal((abs / 3600) as nat), 2, '0')
            + seq![':'] + pad_left(decimal(((abs % 3600) / 60) as nat), 2, '0')
    }
}

/// The RFC 3339 text of a timestamp with a four-digit year, fields in
/// their ranges and an offset under 100 hours has a fixed width:
/// `YYYY-MM-DDTHH:MM:SS.ffffffZ` is 27 characters in UTC, and with an
/// offset the `Z` becomes `+HH:MM` or `-HH:MM`, 32 characters.
pub proof fn lemma_text_width(t: Timestamp)
    requires
        0 <= t.year <= 9999,
        t.month < 100,
        t.day < 100,
        t.hour < 100,
        t.minute < 100,
        t.second < 100,
        t.microsecond < 1_000_000,
        -360_000 < t.offset_seconds < 360_000,
    ensures
        t.text().len() == (if t.offset_seconds == 0 { 27int } else { 32int }),
{
    assert(pow10(2) == 100 && pow10(4) == 10_000 && pow10(6) == 1_000_000) by {
        reveal_with_fuel(pow10, 7);
    }
    lemma_padded_len(t.year as nat, 4, '0');
    lemma_padded_len(t.month as nat, 2, '0');
    lemma_padded_len(t.day as nat, 2, '0');
    lemma_padded_len(t.hour as nat, 2, '0');
    lemma_padded_len(t.minute as nat, 2, '0');
    lemma_padded_len(t.second as nat, 2, '0');
    lemma_padded_len(t.microsecond as nat, 6, '0');
    let o = t.offset_seconds as int;
    if o != 0 {
        let abs = if o < 0 { -o } else { o };
        lemma_padded_len((abs / 3600) as nat, 2, '0');
        lemma_padded_len(((abs % 3600) / 60) as nat, 2, '0');
    }
}

#[verifier::external_type_specification]
#[verifier::external_body]
pub struct ExSystemTime(SystemTime);

#[verifier::external_type_specification]
#[verifier::external_body]
pub struct ExSystemTimeError(SystemTimeError);

/// `SystemTime::now`: the current system time. Nothing is promised of it.
#[verifier::external_body]
fn system_now() -> SystemTime {
    SystemTime::now()
}

/// `SystemTime::duration_since(UNIX_EPOCH)`: the time since the epoch, or
/// an error carrying the time before it. Nothing is promised of either.
#[verifier::external_body]
fn since_unix_epoch(t: &SystemTime) -> Result<Duration, SystemTimeError> {
    t.duration_since(std::time::UNIX_EPOCH)
}

/// `SystemTimeError::duration`: how far before the epoch the time was.
#[verifier::external_body]
fn error_duration(e: &SystemTimeError) -> Duration {
    e.duration()
}

/// `Duration::as_secs`: the whole seconds of a duration, any `u64`.
#[verifier::external_body]
fn duration_secs(d: &Duration) -> u64 {
    d.as_secs()
}

/// `Duration::subsec_nanos`: the fractional part in nanoseconds, which std
/// documents to be less than one billion.
#[verifier::external_body]
fn duration_subsec_nanos(d: &Duration) -> (r: u32)
    ensures
        r < 1_000_000_000,
{
    d.subsec_nanos()
}

/// Signed microseconds since the Unix epoch, as the system clock reads them.
fn unix_micros() -> (r: i128)
    ensures
        -max_clock_micros() <= r <= max_clock_micros(),
{
    match since_unix_epoch(&system_now()) {
        Ok(d) => (duration_secs(&d) as i128) * MICROS_PER_SECOND + (duration_subsec_nanos(&d) as i128)
            / 1000,
        Err(e) => {
            let d = error_duration(&e);
            -(duration_secs(&d) as i128) * MICROS_PER_SECOND - (duration_subsec_nanos(&d) as i128)
                / 1000
        },
    }
}

/// Decompose a signed microsecond count into calendar fields.
pub fn from_unix_micros(micros: i128, offset_seconds: i32) -> (t: Timestamp)
    ensures
        t == timestamp_at(micros as int, offset_seconds),
{
    let (days, rem) = split_days(micros);
    let hour = (rem / MICROS_PER_HOUR) as u8;
    let minute = ((rem % MICROS_PER_HOUR) / MICROS_PER_MINUTE) as u8;
    let second = ((rem % MICROS_PER_MINUTE) / MICROS_PER_SECOND) as u8;
    let microsecond = (rem % MICROS_PER_SECOND) as u32;
    let (year, month, day) = civil_from_days(days);
    Timestamp { year, month, day, hour, minute, second, microsecond, offset_seconds }
}

/// The day that `micros` microseconds since the epoch fall on, and the
/// microseconds into that day: Euclidean division by the length of a day.
fn split_days(micros: i128) -> (r: (i128, i128))
    ensures
        r.0 == micros as int / MICROS_PER_DAY as int,
        r.1 == micros as int % MICROS_PER_DAY as int,
{
    let q = micros / MICROS_PER_DAY;
    let m = micros % MICROS_PER_DAY;
    if m < 0 {
        (q - 1, m + MICROS_PER_DAY)
    } else {
        (q, m)
    }
}

/// Convert a count of days since the Unix epoch into a civil (Gregorian)
/// date `(year, month, day)`, correctly handling negative day counts; the
/// year is truncated to 32 bits as `as i32` does.
///
/// Based on Howard Hinnant's public-domain `civil_from_days` algorithm.
pub fn civil_from_days(days: i128) -> (r: (i32, u8, u8))
    requires
        days <= i128::MAX - 719_468,
    ensures
        r.0 == civil_date(days as int).0 as i32,
        r.1 == civil_date(days as int).1,
        r.2 == civil_date(days as int).2,
{
    let z = days + 719_468;
    let era = (if z >= 0 {
        z
    } else {
        z - 146_096
    }) / 146_097;
    proof {
        assert(era == (z as int) / 146_097);
    }
    let doe = z - era * 146_097;
    let yoe = (doe - doe / 1460 + doe / 36_524 - doe / 146_096) / 365;
    let year = yoe + era * 400;
    let doy = doe - (365 * yoe + yoe / 4 - yoe / 100);
    let mp = (5 * doy + 2) / 153;
    let day = (doy - (153 * mp + 2) / 5 + 1) as u8;
    let month = (if mp < 10 {
        mp + 3
    } else {
        mp - 9
    }) as u8;
    let year = if month <= 2 {
        year + 1
    } else {
        year
    };
    proof {
        lemma_civil_date_is_civil_fields(days as int);
        let f = civil_fields(days as int);
        assert(year == f.0 && month == f.1 && day == f.2);
    }
    (year as i32, month, day)
}

} // verus!
