use subscript_runtime::date::{
    civil_from_days, days_from_civil, decompose, get_field, in_range, to_iso, utc_ms,
    weekday_from_days, FIELD_DATE, FIELD_DAY, FIELD_FULL_YEAR, FIELD_HOURS, FIELD_MILLISECONDS,
    FIELD_MINUTES, FIELD_MONTH, FIELD_SECONDS, MAX_DATE_MS, MS_PER_DAY,
};

#[test]
fn epoch_is_day_zero_and_a_thursday() {
    assert_eq!(days_from_civil(1970, 1, 1), 0);
    assert_eq!(civil_from_days(0), (1970, 1, 1));
    assert_eq!(weekday_from_days(0), 4);
    let f = decompose(0);
    assert_eq!((f.year, f.month0, f.day, f.weekday), (1970, 0, 1, 4));
    assert_eq!((f.hours, f.minutes, f.seconds, f.millis), (0, 0, 0, 0));
}

#[test]
fn leap_rules_follow_the_400_year_cycle() {
    let feb29 = days_from_civil(2000, 2, 29);
    assert_eq!(civil_from_days(feb29), (2000, 2, 29));
    assert_eq!(civil_from_days(feb29 + 1), (2000, 3, 1));
    assert_eq!(civil_from_days(days_from_civil(1900, 2, 29)), (1900, 3, 1));
    assert_eq!(civil_from_days(days_from_civil(2100, 2, 29)), (2100, 3, 1));
    assert_eq!(civil_from_days(days_from_civil(2400, 2, 29)), (2400, 2, 29));
}

#[test]
fn pre_1970_days_are_exact() {
    assert_eq!(days_from_civil(1969, 12, 31), -1);
    assert_eq!(civil_from_days(-1), (1969, 12, 31));
    assert_eq!(weekday_from_days(-1), 3);
}

#[test]
fn minus_one_millisecond_is_the_last_instant_of_1969() {
    let f = decompose(-1);
    assert_eq!((f.year, f.month0, f.day), (1969, 11, 31));
    assert_eq!((f.hours, f.minutes, f.seconds, f.millis), (23, 59, 59, 999));
    assert_eq!(to_iso(-1).as_deref(), Some("1969-12-31T23:59:59.999Z"));
}

#[test]
fn civil_round_trips_across_a_wide_year_sweep() {
    let start = days_from_civil(1600, 1, 1);
    let end = days_from_civil(2400, 12, 31);
    for z in start..=end {
        let (y, m, d) = civil_from_days(z);
        assert_eq!(days_from_civil(y, m, i64::from(d)), z, "round trip at day {z}");
    }
    for y in [0i64, 9999] {
        let z = days_from_civil(y, 1, 1);
        assert_eq!(civil_from_days(z), (y, 1, 1), "year {y}");
    }
}

#[test]
fn known_weekdays() {
    assert_eq!(weekday_from_days(days_from_civil(2000, 1, 1)), 6);
    assert_eq!(weekday_from_days(days_from_civil(2020, 6, 15)), 1);
}

#[test]
fn utc_ms_defaults_and_full_fields() {
    assert_eq!(utc_ms(1970, 0, 1, 0, 0, 0, 0), Some(0));
    assert_eq!(utc_ms(2020, 5, 15, 12, 34, 56, 789), Some(1_592_224_496_789));
    assert_eq!(to_iso(1_592_224_496_789).as_deref(), Some("2020-06-15T12:34:56.789Z"));
}

#[test]
fn utc_ms_carries_month_and_day_arithmetically() {
    assert_eq!(utc_ms(2020, 13, 1, 0, 0, 0, 0), utc_ms(2021, 1, 1, 0, 0, 0, 0));
    assert_eq!(utc_ms(2020, 2, 0, 0, 0, 0, 0), utc_ms(2020, 1, 29, 0, 0, 0, 0));
    assert_eq!(utc_ms(1900, 1, 29, 0, 0, 0, 0), utc_ms(1900, 2, 1, 0, 0, 0, 0));
    assert_eq!(utc_ms(2020, -1, 1, 0, 0, 0, 0), utc_ms(2019, 11, 1, 0, 0, 0, 0));
}

#[test]
fn utc_ms_maps_two_digit_years_to_1900() {
    let ms = utc_ms(7, 0, 1, 0, 0, 0, 0).expect("in range");
    assert_eq!(decompose(ms).year, 1907);
    assert_eq!(utc_ms(0, 0, 1, 0, 0, 0, 0), utc_ms(1900, 0, 1, 0, 0, 0, 0));
    let ms = utc_ms(100, 0, 1, 0, 0, 0, 0).expect("in range");
    assert_eq!(decompose(ms).year, 100);
}

#[test]
fn utc_ms_rejects_results_outside_the_time_clip_range() {
    assert_eq!(utc_ms(275_760, 8, 13, 0, 0, 0, 0), Some(MAX_DATE_MS));
    assert_eq!(utc_ms(275_760, 8, 13, 0, 0, 0, 1), None);
    assert_eq!(utc_ms(275_760, 8, 14, 0, 0, 0, 0), None);
    assert_eq!(utc_ms(-271_821, 3, 20, 0, 0, 0, 0), Some(-MAX_DATE_MS));
    assert_eq!(utc_ms(-271_821, 3, 19, 0, 0, 0, 0), None);
    assert_eq!(utc_ms(i32::MAX, 0, 1, 0, 0, 0, 0), None);
    assert_eq!(utc_ms(i32::MIN, 0, 1, 0, 0, 0, 0), None);
}

#[test]
fn in_range_matches_the_time_clip_bound() {
    assert!(in_range(0));
    assert!(in_range(MAX_DATE_MS));
    assert!(in_range(-MAX_DATE_MS));
    assert!(!in_range(MAX_DATE_MS + 1));
    assert!(!in_range(-MAX_DATE_MS - 1));
    assert!(!in_range(i64::MIN));
}

#[test]
fn get_field_covers_the_eight_codes_and_rejects_unknown_ones() {
    let ms = utc_ms(2020, 5, 15, 12, 34, 56, 789).expect("in range");
    assert_eq!(get_field(ms, FIELD_FULL_YEAR), Some(2020));
    assert_eq!(get_field(ms, FIELD_MONTH), Some(5));
    assert_eq!(get_field(ms, FIELD_DATE), Some(15));
    assert_eq!(get_field(ms, FIELD_DAY), Some(1));
    assert_eq!(get_field(ms, FIELD_HOURS), Some(12));
    assert_eq!(get_field(ms, FIELD_MINUTES), Some(34));
    assert_eq!(get_field(ms, FIELD_SECONDS), Some(56));
    assert_eq!(get_field(ms, FIELD_MILLISECONDS), Some(789));
    assert_eq!(get_field(ms, 8), None);
}

#[test]
fn to_iso_pads_and_enforces_the_year_range() {
    assert_eq!(to_iso(0).as_deref(), Some("1970-01-01T00:00:00.000Z"));
    let y7 = days_from_civil(7, 3, 4) * MS_PER_DAY;
    assert_eq!(y7, -61_940_937_600_000);
    assert_eq!(to_iso(y7).as_deref(), Some("0007-03-04T00:00:00.000Z"));
    let y0 = days_from_civil(0, 1, 1) * MS_PER_DAY;
    assert_eq!(to_iso(y0).as_deref(), Some("0000-01-01T00:00:00.000Z"));
    let y9999 = days_from_civil(9999, 12, 31) * MS_PER_DAY + MS_PER_DAY - 1;
    assert_eq!(y9999, 253_402_300_799_999);
    assert_eq!(to_iso(y9999).as_deref(), Some("9999-12-31T23:59:59.999Z"));
    assert_eq!(to_iso(y0 - 1), None);
    assert_eq!(to_iso(y9999 + 1), None);
    assert_eq!(to_iso(MAX_DATE_MS), None);
    assert_eq!(to_iso(-MAX_DATE_MS), None);
}

#[test]
fn time_clip_extremes_decompose_to_the_known_calendar_dates() {
    let max = decompose(MAX_DATE_MS);
    assert_eq!((max.year, max.month0, max.day, max.weekday), (275_760, 8, 13, 6));
    let min = decompose(-MAX_DATE_MS);
    assert_eq!((min.year, min.month0, min.day, min.weekday), (-271_821, 3, 20, 2));
}

#[test]
fn day_numbers_carry_out_of_range_days_arithmetically() {
    // The day argument carries: day 0 is the last day of the month before.
    assert_eq!(days_from_civil(2021, 3, 0), days_from_civil(2021, 2, 28));
    assert_eq!(days_from_civil(2020, 3, 0), days_from_civil(2020, 2, 29));
    assert_eq!(days_from_civil(2020, 1, 32), days_from_civil(2020, 2, 1));
    assert_eq!(days_from_civil(2020, 1, 1) + 400, days_from_civil(2020, 1, 401));
}

#[test]
fn weekdays_repeat_every_seven_days() {
    for z in [-100_000i64, -8, -1, 0, 3, 7, 1_000_000] {
        assert_eq!(weekday_from_days(z), weekday_from_days(z + 7));
        assert!(weekday_from_days(z) < 7);
    }
}

#[test]
fn decompose_and_utc_ms_invert_each_other() {
    for ms in [0i64, -1, 1_592_224_496_789, -61_940_937_600_000, MAX_DATE_MS, -MAX_DATE_MS] {
        let f = decompose(ms);
        let year = i32::try_from(f.year).expect("year fits");
        let back = utc_ms(
            year,
            f.month0 as i32,
            f.day as i32,
            f.hours as i32,
            f.minutes as i32,
            f.seconds as i32,
            f.millis as i32,
        );
        if (0..=99).contains(&f.year) {
            continue;
        }
        assert_eq!(back, Some(ms));
    }
}
