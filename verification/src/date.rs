//! `Date` runtime: proleptic-Gregorian calendar arithmetic over `i64`
//! epoch milliseconds (UTC).
//!
//! Day 0 is 1970-01-01 (a Thursday). Every split of milliseconds into
//! days and time of day is euclidean, so -1 ms is
//! 1969-12-31T23:59:59.999Z. `Date.UTC` carries out-of-range month/day
//! arithmetically and maps two-digit years 0–99 to 1900+year (ECMA
//! MakeFullYear). Valid times satisfy `|ms| <= MAX_DATE_MS` (the ECMA
//! TimeClip range); an out-of-range result is reported as `None`.
use vstd::prelude::*;

use crate::text::{ascii_chars, ascii_string, is_ascii_bytes, lemma_zero_padded_ascii, push_padded_decimal, zero_padded};



verus! {

/// Milliseconds per day.
pub const MS_PER_DAY: i64 = 86_400_000;

/// The ECMA TimeClip bound: valid times satisfy `|ms| <= MAX_DATE_MS`.
pub const MAX_DATE_MS: i64 = 8_640_000_000_000_000;

/// `subscript_rt_date_get` field code: `getUTCFullYear`.
pub const FIELD_FULL_YEAR: u32 = 0;
/// `subscript_rt_date_get` field code: `getUTCMonth` (0-based).
pub const FIELD_MONTH: u32 = 1;
/// `subscript_rt_date_get` field code: `getUTCDate`.
pub const FIELD_DATE: u32 = 2;
/// `subscript_rt_date_get` field code: `getUTCDay` (0 = Sunday).
pub const FIELD_DAY: u32 = 3;
/// `subscript_rt_date_get` field code: `getUTCHours`.
pub const FIELD_HOURS: u32 = 4;
/// `subscript_rt_date_get` field code: `getUTCMinutes`.
pub const FIELD_MINUTES: u32 = 5;
/// `subscript_rt_date_get` field code: `getUTCSeconds`.
pub const FIELD_SECONDS: u32 = 6;
/// `subscript_rt_date_get` field code: `getUTCMilliseconds`.
pub const FIELD_MILLISECONDS: u32 = 7;

// ----- the calendar model -----

/// Gregorian leap-year rule, extended to every integer year.
pub open spec fn is_leap_year(y: int) -> bool {
    y % 4 == 0 && (y % 100 != 0 || y % 400 == 0)
}

/// Days in year `y`.
pub open spec fn days_in_year(y: int) -> int {
    if is_leap_year(y) { 366 } else { 365 }
}

/// Days in month `m` (1-based) of year `y`.
pub open spec fn days_in_month(y: int, m: int) -> int {
    if m == 2 {
        if is_leap_year(y) { 29 } else { 28 }
    } else if m == 4 || m == 6 || m == 9 || m == 11 {
        30
    } else {
        31
    }
}

/// Number of leap years among `1..=n` (for negative `n`, minus the leap
/// years among `n+1..=0`), so that consecutive values differ by exactly
/// one at each leap year.
pub open spec fn leap_years_through(n: int) -> int {
    n / 4 - n / 100 + n / 400
}

/// Days from 1970-01-01 to January 1 of year `y`.
pub open spec fn days_before_year(y: int) -> int {
    365 * (y - 1970) + leap_years_through(y - 1) - leap_years_through(1969)
}

/// Days from January 1 to the first day of month `m` (1-based) in year `y`.
pub open spec fn days_before_month(y: int, m: int) -> int {
    let leap_day: int = if m > 2 && is_leap_year(y) { 1 } else { 0 };
    let before: int = if m == 1 {
        0
    } else if m == 2 {
        31
    } else if m == 3 {
        59
    } else if m == 4 {
        90
    } else if m == 5 {
        120
    } else if m == 6 {
        151
    } else if m == 7 {
        181
    } else if m == 8 {
        212
    } else if m == 9 {
        243
    } else if m == 10 {
        273
    } else if m == 11 {
        304
    } else {
        334
    };
    before + leap_day
}

/// Day number (days since 1970-01-01) of the civil date `(y, m, d)`;
/// a day outside the month counts on arithmetically from the month's
/// first day.
pub open spec fn civil_to_days(y: int, m: int, d: int) -> int {
    days_before_year(y) + days_before_month(y, m) + d - 1
}

/// `(y, m, d)` names an existing day of the proleptic Gregorian calendar.
pub open spec fn is_valid_civil(y: int, m: int, d: int) -> bool {
    1 <= m <= 12 && 1 <= d <= days_in_month(y, m)
}

/// Day of week of day number `z`: 0 = Sunday (day 0 is a Thursday).
pub open spec fn weekday_of(z: int) -> int {
    (z + 4) % 7
}

/// ECMA MakeFullYear over integers: 0–99 select the 20th century.
pub open spec fn full_year(year: int) -> int {
    if 0 <= year <= 99 { 1900 + year } else { year }
}

/// The exact (unclipped) time value of `Date.UTC` over integer fields.
pub open spec fn utc_time(
    year: int,
    month0: int,
    day: int,
    hours: int,
    minutes: int,
    seconds: int,
    millis: int,
) -> int {
    let ym = full_year(year) * 12 + month0;
    let days = civil_to_days(ym / 12, ym % 12 + 1, 1) + day - 1;
    days * 86_400_000 + hours * 3_600_000 + minutes * 60_000 + seconds * 1_000 + millis
}

/// True when `t` lies in the TimeClip range.
pub open spec fn time_in_range(t: int) -> bool {
    -8_640_000_000_000_000 <= t <= 8_640_000_000_000_000
}

/// The UTC calendar fields of a millisecond time value.
#[derive(Debug, Clone, Copy, PartialEq, Eq)]
#[non_exhaustive]
pub struct DateFields {
    /// Civil year (proleptic Gregorian; may be negative).
    pub year: i64,
    /// Month, 0-based (0 = January).
    pub month0: u32,
    /// Day of month, 1-based.
    pub day: u32,
    /// Day of week, 0 = Sunday.
    pub weekday: u32,
    /// Hours [0, 23].
    pub hours: u32,
    /// Minutes [0, 59].
    pub minutes: u32,
    /// Seconds [0, 59].
    pub seconds: u32,
    /// Milliseconds [0, 999].
    pub millis: u32,
}

/// The fields `decompose` gives for time value `ms`.
pub open spec fn fields_of(ms: int, f: DateFields) -> bool {
    let days = ms / 86_400_000;
    let tod = ms % 86_400_000;
    &&& is_valid_civil(f.year as int, f.month0 + 1, f.day as int)
    &&& civil_to_days(f.year as int, f.month0 + 1, f.day as int) == days
    &&& f.weekday == weekday_of(days)
    &&& f.hours == tod / 3_600_000
    &&& f.minutes == (tod / 60_000) % 60
    &&& f.seconds == (tod / 1_000) % 60
    &&& f.millis == tod % 1_000
}

/// The UTC calendar fields of time value `ms` (unique by
/// `lemma_fields_unique`).
pub open spec fn date_fields(ms: int) -> DateFields {
    choose|f: DateFields| fields_of(ms, f)
}

// ----- lemmas about the model -----

/// Consecutive years start `days_in_year` days apart.
pub proof fn lemma_days_before_next_year(y: int)
    ensures
        days_before_year(y + 1) == days_before_year(y) + days_in_year(y),
{
    lemma_leap_years_step(y);
}

/// A valid date lies inside its own year.
pub proof fn lemma_civil_within_year(y: int, m: int, d: int)
    requires
        is_valid_civil(y, m, d),
    ensures
        days_before_year(y) <= civil_to_days(y, m, d) < days_before_year(y + 1),
{
    lemma_days_before_next_year(y);
}

/// Later years start later.
pub proof fn lemma_days_before_year_monotonic(y1: int, y2: int)
    requires
        y1 <= y2,
    ensures
        days_before_year(y1) + 365 * (y2 - y1) <= days_before_year(y2),
    decreases y2 - y1,
{
    if y1 < y2 {
        lemma_days_before_year_monotonic(y1, y2 - 1);
        lemma_days_before_next_year(y2 - 1);
    }
}

/// Distinct valid dates have distinct day numbers.
pub proof fn lemma_civil_unique(y1: int, m1: int, d1: int, y2: int, m2: int, d2: int)
    requires
        is_valid_civil(y1, m1, d1),
        is_valid_civil(y2, m2, d2),
        civil_to_days(y1, m1, d1) == civil_to_days(y2, m2, d2),
    ensures
        y1 == y2 && m1 == m2 && d1 == d2,
{
    lemma_civil_within_year(y1, m1, d1);
    lemma_civil_within_year(y2, m2, d2);
    if y1 < y2 {
        lemma_days_before_year_monotonic(y1 + 1, y2);
    } else if y2 < y1 {
        lemma_days_before_year_monotonic(y2 + 1, y1);
    }
}

/// A time value has one set of calendar fields.
pub proof fn lemma_fields_unique(ms: int, f: DateFields, g: DateFields)
    requires
        fields_of(ms, f),
        fields_of(ms, g),
    ensures
        f == g,
{
    lemma_civil_unique(
        f.year as int,
        f.month0 + 1,
        f.day as int,
        g.year as int,
        g.month0 + 1,
        g.day as int,
    );
}

/// A day outside its month counts on from the month's first day.
pub proof fn lemma_day_carries(y: int, m: int, d: int)
    ensures
        civil_to_days(y, m, d) == civil_to_days(y, m, 1) + (d - 1),
{
}

/// The decomposed fields lie in their documented ranges.
pub proof fn lemma_fields_ranges(ms: int, f: DateFields)
    requires
        fields_of(ms, f),
    ensures
        f.month0 <= 11,
        1 <= f.day <= 31,
        f.weekday <= 6,
        f.hours <= 23,
        f.minutes <= 59,
        f.seconds <= 59,
        f.millis <= 999,
{
}

/// `Date.UTC` of the decomposed fields gives back the time value, for
/// every year outside 0–99 (which `Date.UTC` reads as 1900–1999).
pub proof fn lemma_utc_time_of_fields(ms: int, f: DateFields)
    requires
        fields_of(ms, f),
        !(0 <= f.year <= 99),
    ensures
        utc_time(
            f.year as int,
            f.month0 as int,
            f.day as int,
            f.hours as int,
            f.minutes as int,
            f.seconds as int,
            f.millis as int,
        ) == ms,
{
    let ym = f.year * 12 + f.month0;
    assert(ym / 12 == f.year);
    assert(ym % 12 == f.month0);
    lemma_day_carries(f.year as int, f.month0 + 1, f.day as int);
    let tod = ms % 86_400_000;
    assert(tod == f.hours * 3_600_000 + f.minutes * 60_000 + f.seconds * 1_000 + f.millis);
    vstd::arithmetic::div_mod::lemma_fundamental_div_mod(ms, 86_400_000);
}

/// Twelve months past month `month0` of year `y` is the same month of the
/// next year, unless `Date.UTC` reads only one of the two years as
/// two-digit.
pub proof fn lemma_utc_month_carry(
    y: int,
    month0: int,
    day: int,
    hours: int,
    minutes: int,
    seconds: int,
    millis: int,
)
    requires
        full_year(y + 1) == full_year(y) + 1,
    ensures
        utc_time(y, month0 + 12, day, hours, minutes, seconds, millis) == utc_time(
            y + 1,
            month0,
            day,
            hours,
            minutes,
            seconds,
            millis,
        ),
{
    let a = full_year(y) * 12 + month0 + 12;
    let b = full_year(y + 1) * 12 + month0;
    assert(a == b);
}

/// One more day is exactly one day's milliseconds later.
pub proof fn lemma_utc_day_carry(
    y: int,
    month0: int,
    day: int,
    hours: int,
    minutes: int,
    seconds: int,
    millis: int,
)
    ensures
        utc_time(y, month0, day + 1, hours, minutes, seconds, millis) == utc_time(
            y,
            month0,
            day,
            hours,
            minutes,
            seconds,
            millis,
        ) + 86_400_000,
{
}

/// Day numbers seven apart fall on the same weekday.
pub proof fn lemma_weekday_period(z: int)
    ensures
        weekday_of(z + 7) == weekday_of(z),
        0 <= weekday_of(z) <= 6,
{
}

// ----- exec helpers -----

/// Euclidean quotient and remainder.
fn div_rem_euclid(a: i64, b: i64) -> (r: (i64, i64))
    requires
        b > 0,
    ensures
        r.0 == a / b,
        r.1 == a % b,
{
    proof {
        vstd::arithmetic::div_mod::lemma_fundamental_div_mod(a as int, b as int);
        assert(i64::MIN <= a / b <= i64::MAX) by (nonlinear_arith)
            requires
                b > 0,
                i64::MIN <= a <= i64::MAX,
                a == b * (a / b) + a % b,
                0 <= a % b < b,
        ;
    }
    let q = match a.checked_div_euclid(b) {
        Some(q) => q,
        None => 0,
    };
    let m = match a.checked_rem_euclid(b) {
        Some(m) => m,
        None => 0,
    };
    (q, m)
}

// ----- the public operations -----

/// True when `ms` is a valid time value (ECMA TimeClip range).
pub fn in_range(ms: i64) -> (r: bool)
    ensures
        r == time_in_range(ms as int),
{
    -MAX_DATE_MS <= ms && ms <= MAX_DATE_MS
}

/// `leap_years_through` grows by one exactly at leap years.
proof fn lemma_leap_years_step(n: int)
    ensures
        leap_years_through(n) == leap_years_through(n - 1) + if is_leap_year(n) { 1int } else { 0int },
{
}

/// The era form of `leap_years_through` used by the day-number algorithms.
proof fn lemma_leap_years_era(n: int)
    ensures
        leap_years_through(n) == (n / 400) * 97 + (n % 400) / 4 - (n % 400) / 100,
{
    let era = n / 400;
    let yoe = n % 400;
    assert(n / 4 == era * 100 + yoe / 4);
    assert(n / 100 == era * 4 + yoe / 100);
}

/// The shifted-year algorithm behind `days_from_civil` counts days exactly.
proof fn lemma_days_from_civil_algorithm(y: int, m: int, d: int)
    requires
        1 <= m <= 12,
    ensures
        ({
            let yy = if m <= 2 { y - 1 } else { y };
            let era = yy / 400;
            let yoe = yy % 400;
            let mp = if m > 2 { m - 3 } else { m + 9 };
            let doy = (153 * mp + 2) / 5 + d - 1;
            let doe = yoe * 365 + yoe / 4 - yoe / 100 + doy;
            era * 146_097 + doe - 719_468
        }) == civil_to_days(y, m, d),
{
    let yy = if m <= 2 { y - 1 } else { y };
    lemma_leap_years_era(yy);
    lemma_leap_years_step(y);
}

/// The year-of-era step of `civil_from_days`: every day of a 400-year
/// era falls in exactly one March-based year.
proof fn lemma_year_of_era(doe: int)
    requires
        0 <= doe <= 146_096,
    ensures
        ({
            let yoe = (doe - doe / 1460 + doe / 36524 - doe / 146_096) / 365;
            &&& 0 <= yoe <= 399
            &&& 365 * yoe + yoe / 4 - yoe / 100 <= doe
            &&& doe < 365 * (yoe + 1) + (yoe + 1) / 4 - (yoe + 1) / 100 + (yoe + 1) / 400
        }),
{
}

/// The month step of `civil_from_days`: a March-based day of year maps to
/// a valid month and day.
proof fn lemma_month_of_year(doy: int, leap: bool)
    requires
        0 <= doy < if leap { 366int } else { 365int },
    ensures
        ({
            let mp = (5 * doy + 2) / 153;
            let d = doy - (153 * mp + 2) / 5 + 1;
            let m = if mp < 10 { mp + 3 } else { mp - 9 };
            &&& 0 <= mp <= 11
            &&& 1 <= d
            &&& d <= if m == 2 {
                if leap { 29int } else { 28int }
            } else if m == 4 || m == 6 || m == 9 || m == 11 {
                30int
            } else {
                31int
            }
        }),
{
}

/// Days since 1970-01-01 of the civil date `(y, m, d)`; `m` is 1-based
/// (1 = January). `d` may lie outside the month (0, 32, …) and carries
/// arithmetically: the result is always
/// `days_from_civil(y, m, 1) + (d - 1)`.
///
/// The bounds on `y` and `d` keep every intermediate within `i64`.
pub fn days_from_civil(y: i64, m: u32, d: i64) -> (r: i64)
    requires
        1 <= m <= 12,
        -0x40_0000_0000_0000 <= y <= 0x40_0000_0000_0000,
        -0x2000_0000_0000_0000 <= d <= 0x2000_0000_0000_0000,
    ensures
        r == civil_to_days(y as int, m as int, d as int),
{
    proof {
        lemma_days_from_civil_algorithm(y as int, m as int, d as int);
    }
    let y = if m <= 2 { y - 1 } else { y };
    let (era, yoe) = div_rem_euclid(y, 400);
    let mp: i64 = if m > 2 { (m - 3) as i64 } else { (m + 9) as i64 };
    let doy = (153 * mp + 2) / 5 + d - 1;
    let doe = yoe * 365 + yoe / 4 - yoe / 100 + doy;
    era * 146_097 + doe - 719_468
}

/// The era algorithm behind `civil_from_days` yields the valid date
/// with day number `z`.
#[verifier::spinoff_prover]
#[verifier::rlimit(60)]
proof fn lemma_civil_from_days_algorithm(z: int)
    ensures
        ({
            let zz = z + 719_468;
            let era = zz / 146_097;
            let doe = zz % 146_097;
            let yoe = (doe - doe / 1460 + doe / 36524 - doe / 146_096) / 365;
            let y = yoe + era * 400;
            let doy = doe - (365 * yoe + yoe / 4 - yoe / 100);
            let mp = (5 * doy + 2) / 153;
            let d = doy - (153 * mp + 2) / 5 + 1;
            let m = if mp < 10 { mp + 3 } else { mp - 9 };
            let year = if m <= 2 { y + 1 } else { y };
            &&& 0 <= yoe <= 399
            &&& 0 <= doy <= 365
            &&& 0 <= mp <= 11
            &&& is_valid_civil(year, m, d)
            &&& civil_to_days(year, m, d) == z
        }),
{
    let zz = z + 719_468;
    let era = zz / 146_097;
    let doe = zz % 146_097;
    let yoe = (doe - doe / 1460 + doe / 36524 - doe / 146_096) / 365;
    let y = yoe + era * 400;
    let doy = doe - (365 * yoe + yoe / 4 - yoe / 100);
    lemma_year_of_era(doe);
    let leap = is_leap_year(y + 1);
    assert((y + 1) % 4 == (yoe + 1) % 4);
    assert((y + 1) % 100 == (yoe + 1) % 100);
    assert((y + 1) % 400 == (yoe + 1) % 400);
    assert(doy < if leap { 366int } else { 365int });
    lemma_month_of_year(doy, leap);
    let mp = (5 * doy + 2) / 153;
    let d = doy - (153 * mp + 2) / 5 + 1;
    let m = if mp < 10 { mp + 3 } else { mp - 9 };
    let year = if m <= 2 { y + 1 } else { y };
    lemma_days_from_civil_algorithm(year, m, d);
    assert(y / 400 == era);
    assert(y % 400 == yoe);
}

/// Civil date `(year, month 1-based, day)` of day number `z` (days
/// since 1970-01-01; negative for pre-1970).
pub fn civil_from_days(z: i64) -> (r: (i64, u32, u32))
    requires
        z <= i64::MAX - 719_468,
    ensures
        is_valid_civil(r.0 as int, r.1 as int, r.2 as int),
        civil_to_days(r.0 as int, r.1 as int, r.2 as int) == z,
{
    proof {
        lemma_civil_from_days_algorithm(z as int);
    }
    let z = z + 719_468;
    let (era, doe) = div_rem_euclid(z, 146_097);
    let yoe = (doe - doe / 1460 + doe / 36524 - doe / 146_096) / 365;
    let y = yoe + era * 400;
    let doy = doe - (365 * yoe + yoe / 4 - yoe / 100);
    let mp = (5 * doy + 2) / 153;
    let d = (doy - (153 * mp + 2) / 5 + 1) as u32;
    let m = (if mp < 10 { mp + 3 } else { mp - 9 }) as u32;
    (if m <= 2 { y + 1 } else { y }, m, d)
}

/// Day of week of day number `z`: 0 = Sunday … 6 = Saturday. Euclidean
/// modulo, so pre-1970 (negative) days are correct (day 0 is Thursday,
/// so day -1 is Wednesday = 3).
pub fn weekday_from_days(z: i64) -> (r: u32)
    requires
        z <= i64::MAX - 4,
    ensures
        r == weekday_of(z as int),
{
    let (_, w) = div_rem_euclid(z + 4, 7);
    w as u32
}

/// `Date.UTC(year, month0, day, hours, minutes, seconds, millis)` with
/// every argument present. ECMA semantics over integer arguments:
/// MakeFullYear maps 0–99 to 1900+year; out-of-range month0/day carry
/// arithmetically (euclidean year/month normalization, then continuous
/// day offset). `None` when the result falls outside the TimeClip range.
pub fn utc_ms(
    year: i32,
    month0: i32,
    day: i32,
    hours: i32,
    minutes: i32,
    seconds: i32,
    millis: i32,
) -> (r: Option<i64>)
    ensures
        ({
            let t = utc_time(
                year as int,
                month0 as int,
                day as int,
                hours as int,
                minutes as int,
                seconds as int,
                millis as int,
            );
            r == if time_in_range(t) { Some(t as i64) } else { None::<i64> }
        }),
{
    // ECMA MakeFullYear: two-digit years select the 20th century.
    let year = year as i64;
    let year = if 0 <= year && year <= 99 { 1900 + year } else { year };
    let ym = year * 12 + month0 as i64;
    let (y, m0) = div_rem_euclid(ym, 12);
    let m = (m0 + 1) as u32;
    let days = days_from_civil(y, m, 1) + (day as i64 - 1);
    proof {
        // Every year reachable from an `i32` is within a few billion, so
        // its day number stays far inside `i64`.
        lemma_days_before_year_monotonic(-3_000_000_000, y as int);
        lemma_days_before_year_monotonic(y as int, 3_000_000_000);
    }
    // i128: an extreme i32 year overflows i64 milliseconds; the range
    // check below rejects everything outside TimeClip exactly.
    let ms = days as i128 * 86_400_000i128 + hours as i128 * 3_600_000i128
        + minutes as i128 * 60_000i128 + seconds as i128 * 1_000i128 + millis as i128;
    if -(MAX_DATE_MS as i128) <= ms && ms <= MAX_DATE_MS as i128 {
        Some(ms as i64)
    } else {
        None
    }
}

/// Decomposes `ms` into its UTC calendar fields. The day/time split is
/// euclidean, so negative (pre-1970) times decompose exactly.
pub fn decompose(ms: i64) -> (r: DateFields)
    ensures
        fields_of(ms as int, r),
        r == date_fields(ms as int),
{
    let (days, tod) = div_rem_euclid(ms, MS_PER_DAY);
    let (year, m, d) = civil_from_days(days);
    let r = DateFields {
        year,
        month0: m - 1,
        day: d,
        weekday: weekday_from_days(days),
        hours: (tod / 3_600_000) as u32,
        minutes: (tod / 60_000 % 60) as u32,
        seconds: (tod / 1_000 % 60) as u32,
        millis: (tod % 1_000) as u32,
    };
    proof {
        assert(fields_of(ms as int, r));
        lemma_fields_unique(ms as int, r, date_fields(ms as int));
    }
    r
}

/// The value of accessor `field` (a `FIELD_*` code) in `f`; `None` for an
/// unknown code.
pub open spec fn field_value(f: DateFields, field: u32) -> Option<i32> {
    if field == FIELD_FULL_YEAR {
        Some(f.year as i32)
    } else if field == FIELD_MONTH {
        Some(f.month0 as i32)
    } else if field == FIELD_DATE {
        Some(f.day as i32)
    } else if field == FIELD_DAY {
        Some(f.weekday as i32)
    } else if field == FIELD_HOURS {
        Some(f.hours as i32)
    } else if field == FIELD_MINUTES {
        Some(f.minutes as i32)
    } else if field == FIELD_SECONDS {
        Some(f.seconds as i32)
    } else if field == FIELD_MILLISECONDS {
        Some(f.millis as i32)
    } else {
        None
    }
}

/// The time-of-day accessors read the euclidean time of day of `ms`: the
/// hour of the day (0 to 23), then the minute, second and millisecond
/// within it; the weekday counts from
/// Thursday, 1970-01-01, with Sunday as 0. Every other code but the
/// calendar ones is refused.
pub proof fn lemma_time_accessors(ms: int, f: DateFields)
    requires
        fields_of(ms, f),
    ensures
        field_value(f, FIELD_HOURS) == Some(((ms % 86_400_000) / 3_600_000) as i32),
        0 <= (ms % 86_400_000) / 3_600_000 <= 23,
        field_value(f, FIELD_MINUTES) == Some((((ms % 86_400_000) / 60_000) % 60) as i32),
        field_value(f, FIELD_SECONDS) == Some((((ms % 86_400_000) / 1_000) % 60) as i32),
        field_value(f, FIELD_MILLISECONDS) == Some(((ms % 86_400_000) % 1_000) as i32),
        field_value(f, FIELD_DAY) == Some(((ms / 86_400_000 + 4) % 7) as i32),
        forall|c: u32| c > FIELD_MILLISECONDS ==> field_value(f, c) is None,
{
    assert(0 <= ms % 86_400_000 < 86_400_000);
}

/// The calendar accessors name the civil date of `ms`'s day: the year,
/// the 0-based month and the day of the month read back to exactly the
/// day number of `ms`, and form a valid date.
pub proof fn lemma_calendar_accessors(ms: int, f: DateFields)
    requires
        fields_of(ms, f),
        i64::MIN <= ms <= i64::MAX,
    ensures
        field_value(f, FIELD_FULL_YEAR) matches Some(y) && field_value(f, FIELD_MONTH) matches Some(
            m0,
        ) && field_value(f, FIELD_DATE) matches Some(d) && is_valid_civil(y as int, m0 + 1, d as int)
            && civil_to_days(y as int, m0 + 1, d as int) == ms / 86_400_000,
{
    let days = ms / 86_400_000;
    let y = f.year as int;
    assert(-106_751_992_000 < days < 106_751_992_000);
    lemma_civil_within_year(y, f.month0 + 1, f.day as int);
    if y >= 1970 {
        lemma_days_before_year_monotonic(1970, y);
    } else {
        lemma_days_before_year_monotonic(y + 1, 1970);
    }
    assert(-300_000_000 < y < 300_000_000);
}

/// One UTC accessor by its `FIELD_*` code. `None` for an unknown code —
/// the FFI boundary reports it as an internal trap, never a panic.
pub fn get_field(ms: i64, field: u32) -> (r: Option<i32>)
    ensures
        r == field_value(date_fields(ms as int), field),
        field == FIELD_HOURS ==> r == Some(((ms as int % 86_400_000) / 3_600_000) as i32),
        field == FIELD_MINUTES ==> r == Some((((ms as int % 86_400_000) / 60_000) % 60) as i32),
        field == FIELD_SECONDS ==> r == Some((((ms as int % 86_400_000) / 1_000) % 60) as i32),
        field == FIELD_MILLISECONDS ==> r == Some(((ms as int % 86_400_000) % 1_000) as i32),
        field == FIELD_DAY ==> r == Some(((ms as int / 86_400_000 + 4) % 7) as i32),
        field > FIELD_MILLISECONDS ==> r is None,
        field == FIELD_FULL_YEAR ==> (r matches Some(y) && exists|m: int, d: int|
            is_valid_civil(y as int, m, d) && civil_to_days(y as int, m, d) == ms as int / 86_400_000),
{
    let f = decompose(ms);
    proof {
        lemma_time_accessors(ms as int, f);
        lemma_calendar_accessors(ms as int, f);
    }
    match field {
        FIELD_FULL_YEAR => Some(f.year as i32),
        FIELD_MONTH => Some(f.month0 as i32),
        FIELD_DATE => Some(f.day as i32),
        FIELD_DAY => Some(f.weekday as i32),
        FIELD_HOURS => Some(f.hours as i32),
        FIELD_MINUTES => Some(f.minutes as i32),
        FIELD_SECONDS => Some(f.seconds as i32),
        FIELD_MILLISECONDS => Some(f.millis as i32),
        _ => None,
    }
}

/// `YYYY-MM-DDTHH:mm:ss.sssZ` for the fields `f`, year zero-padded to
/// four digits and milliseconds to three.
pub open spec fn iso_bytes(f: DateFields) -> Seq<u8> {
    zero_padded(f.year as nat, 4) + seq![45u8] + zero_padded((f.month0 + 1) as nat, 2) + seq![45u8]
        + zero_padded(f.day as nat, 2) + seq![84u8] + zero_padded(f.hours as nat, 2) + seq![58u8]
        + zero_padded(f.minutes as nat, 2) + seq![58u8] + zero_padded(f.seconds as nat, 2) + seq![
        46u8,
    ] + zero_padded(f.millis as nat, 3) + seq![90u8]
}

/// `toISOString()`: exactly `YYYY-MM-DDTHH:mm:ss.sssZ`, year zero-padded
/// to four digits, milliseconds to three. `None` when the year is
/// outside 0000–9999 (the caller traps).
pub fn to_iso(ms: i64) -> (r: Option<String>)
    ensures
        ({
            let f = date_fields(ms as int);
            match r {
                Some(s) => 0 <= f.year <= 9999 && s@ == ascii_chars(iso_bytes(f)),
                None => !(0 <= f.year <= 9999),
            }
        }),
{
    let f = decompose(ms);
    if !(0 <= f.year && f.year <= 9999) {
        return None;
    }
    let mut out: Vec<u8> = Vec::new();
    push_padded_decimal(&mut out, f.year as u64, 4);
    out.push(45u8);
    push_padded_decimal(&mut out, (f.month0 + 1) as u64, 2);
    out.push(45u8);
    push_padded_decimal(&mut out, f.day as u64, 2);
    out.push(84u8);
    push_padded_decimal(&mut out, f.hours as u64, 2);
    out.push(58u8);
    push_padded_decimal(&mut out, f.minutes as u64, 2);
    out.push(58u8);
    push_padded_decimal(&mut out, f.seconds as u64, 2);
    out.push(46u8);
    push_padded_decimal(&mut out, f.millis as u64, 3);
    out.push(90u8);
    proof {
        assert(out@ =~= iso_bytes(f));
        lemma_zero_padded_ascii(f.year as nat, 4);
        lemma_zero_padded_ascii((f.month0 + 1) as nat, 2);
        lemma_zero_padded_ascii(f.day as nat, 2);
        lemma_zero_padded_ascii(f.hours as nat, 2);
        lemma_zero_padded_ascii(f.minutes as nat, 2);
        lemma_zero_padded_ascii(f.seconds as nat, 2);
        lemma_zero_padded_ascii(f.millis as nat, 3);
        assert(is_ascii_bytes(out@));
    }
    Some(ascii_string(out))
}

} // verus!
