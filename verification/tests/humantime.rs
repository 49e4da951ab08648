//! Timestamps: parsing, formatting and the civil calendar.

use rewind::humantime::{
    civil_from_days, days_from_civil, days_in_month, digits, format_rfc3339, is_leap_year,
    parse_rfc3339, MICROSECONDS_PER_DAY, MICROSECONDS_PER_SECOND,
};

#[test]
fn epoch_and_known_instants_parse_exactly() {
    assert_eq!(parse_rfc3339("1970-01-01T00:00:00Z").expect("epoch"), 0);
    // Verified against `date -u -d "2026-09-26T00:00:00Z" +%s`.
    assert_eq!(
        parse_rfc3339("2026-09-26T00:00:00Z").expect("known"),
        1_790_380_800_000_000
    );
    assert_eq!(
        format_rfc3339(1_790_380_800_000_000),
        "2026-09-26T00:00:00.000000Z"
    );
    // Verified against `date -u -d "2000-02-29T12:05:39Z" +%s`.
    assert_eq!(
        parse_rfc3339("2000-02-29T12:05:39Z").expect("leap day"),
        951_825_939_000_000
    );
    // Negative epochs (before 1970) format and parse correctly.
    // Verified against `date -u -d "1900-02-28T00:00:00Z" +%s`.
    let before_epoch = -2_203_977_600_000_000;
    assert_eq!(
        parse_rfc3339("1900-02-28T00:00:00Z").expect("pre-epoch"),
        before_epoch
    );
    assert_eq!(format_rfc3339(before_epoch), "1900-02-28T00:00:00.000000Z");
}

#[test]
fn offsets_shift_into_the_utc_instant() {
    // 12:00+02:00 == 10:00Z.
    let utc = parse_rfc3339("2026-09-26T10:00:00Z").expect("utc");
    assert_eq!(
        parse_rfc3339("2026-09-26T12:00:00+02:00").expect("offset"),
        utc
    );
    // Negative offset crosses midnight backwards into the same instant.
    assert_eq!(
        parse_rfc3339("2026-01-01T00:30:00-01:00").expect("negative"),
        parse_rfc3339("2026-01-01T01:30:00Z").expect("same instant")
    );
    assert_eq!(
        parse_rfc3339("2026-09-26t10:00:00z").expect("lowercase"),
        utc
    );
    assert_eq!(parse_rfc3339("2026-09-26 10:00:00Z").expect("space"), utc);
    assert_eq!(
        parse_rfc3339("2026-09-26T10:00:00.123456789Z").expect("fraction"),
        utc + 123_456
    );
    // A leap second maps deterministically to the following second.
    assert_eq!(
        parse_rfc3339("2026-06-30T23:59:60Z").expect("leap second"),
        parse_rfc3339("2026-07-01T00:00:00Z").expect("next day")
    );
}

#[test]
fn format_and_parse_round_trip_across_years() {
    // Every microsecond value constructed from valid field combinations
    // must format and parse back to itself.
    for &(year, month, day) in &[
        (1970, 1, 1),
        (1970, 1, 2),
        (2000, 2, 29), // leap year
        (1900, 2, 28), // century, not a leap year
        (2000, 12, 31),
        (2026, 9, 26),
        (2400, 2, 29),
        (9999, 12, 31),
    ] {
        let days = days_from_civil(year, month, day);
        for second_of_day in [0i64, 43_539, 86_399] {
            let micros =
                days * MICROSECONDS_PER_DAY + second_of_day * MICROSECONDS_PER_SECOND + 7;
            let formatted = format_rfc3339(micros);
            assert_eq!(parse_rfc3339(&formatted).expect("round trip"), micros);
        }
    }
}

#[test]
fn malformed_timestamps_are_rejected() {
    for bad in [
        "",
        "2026-09-26",
        "2026-09-26T10:00:00",       // no offset
        "2026-13-01T00:00:00Z",      // month out of range
        "2026-02-29T00:00:00Z",      // not a leap year
        "2026-09-31T00:00:00Z",      // day out of range
        "2026-09-26T24:00:00Z",      // hour out of range
        "2026-09-26T10:61:00Z",      // minute out of range
        "2026-09-26T10:00:60Z",      // leap second outside 23:59
        "2026-09-26T10:00:00+2400",  // offset missing colon
        "2026-09-26T10:00:00+02:60", // offset minute out of range
        "2026-09-26T10:00:00.Z",     // empty fraction
        "2026-09-26T10:00:00Zextra", // trailing garbage
        "2026/09/26T10:00:00Z",      // wrong separator
        "26-09-26T10:00:00Z",        // short year
        "été-09-26T10:00:00Z",       // non-ASCII input must not panic
    ] {
        assert!(
            parse_rfc3339(bad).is_err(),
            "{bad:?} must be rejected as a timestamp"
        );
    }
}

#[test]
fn parse_error_messages_name_the_input() {
    let error = parse_rfc3339("not-a-time").expect_err("must fail");
    assert!(error.message().contains("not-a-time"));
}

#[test]
fn parse_gives_back_what_format_wrote() {
    for micros in [
        0,
        -1,
        1,
        999_999,
        -62_135_596_800_000_000,
        1_790_380_800_123_456,
        253_402_300_799_999_999,
    ] {
        assert_eq!(
            parse_rfc3339(&format_rfc3339(micros)).expect("round trip"),
            micros
        );
    }
    assert_eq!(
        format_rfc3339(-62_135_596_800_000_000),
        "0001-01-01T00:00:00.000000Z"
    );
}

#[test]
fn civil_dates_and_day_numbers_agree() {
    assert_eq!(civil_from_days(0), (1970, 1, 1));
    assert_eq!(civil_from_days(-1), (1969, 12, 31));
    assert_eq!(civil_from_days(11_016), (2000, 2, 29));
    for days in [-800_000i64, -719_468, -1, 0, 59, 60, 11_016, 19_000, 2_932_896] {
        let (year, month, day) = civil_from_days(days);
        assert_eq!(days_from_civil(year, month, day), days);
        assert!(day <= days_in_month(year, month));
    }
    assert_eq!(days_from_civil(2000, 3, 1) - days_from_civil(2000, 2, 28), 2);
    assert_eq!(days_from_civil(1900, 3, 1) - days_from_civil(1900, 2, 28), 1);
}

#[test]
fn leap_years_follow_the_calendar() {
    assert!(is_leap_year(2000) && is_leap_year(2024) && is_leap_year(-4));
    assert!(!is_leap_year(1900) && !is_leap_year(2026));
    assert_eq!(days_in_month(2024, 2), 29);
    assert_eq!(days_in_month(2023, 2), 28);
    assert_eq!(days_in_month(2023, 4), 30);
    assert_eq!(days_in_month(2023, 12), 31);
}

#[test]
fn digits_read_exactly_their_count() {
    assert_eq!(digits(b"2026-09", 0, 4), Some(2026));
    assert_eq!(digits(b"2026-09", 5, 2), Some(9));
    assert_eq!(digits(b"2026-09", 4, 2), None);
    assert_eq!(digits(b"2026-09", 6, 2), None);
}

#[test]
fn an_offset_moves_the_instant_by_itself() {
    let utc = parse_rfc3339("2026-09-26T10:00:00Z").expect("utc");
    assert_eq!(
        parse_rfc3339("2026-09-26T10:00:00+05:30").expect("east"),
        utc - 19_800 * MICROSECONDS_PER_SECOND
    );
    assert_eq!(
        parse_rfc3339("2026-09-26T10:00:00-23:59").expect("west"),
        utc + 86_340 * MICROSECONDS_PER_SECOND
    );
}
