//! Date and time parsing.

use sortyard::datetime::{days_from_civil, parse_datetime};

#[test]
fn plain_dates_are_midnight_utc_around_the_epoch() {
    assert_eq!(parse_datetime("1970-01-01").unwrap(), 0);
    assert_eq!(parse_datetime("1970-01-02").unwrap(), 86_400_000);
    assert_eq!(parse_datetime("1969-12-31").unwrap(), -86_400_000);
}

#[test]
fn the_next_day_has_the_next_number() {
    assert_eq!(days_from_civil(1970, 1, 1), 0);
    assert_eq!(days_from_civil(0, 3, 1), -719_468);
    assert_eq!(days_from_civil(2000, 2, 29), 11_016);
    for ((y, m, d), (y2, m2, d2)) in [
        ((2023, 2, 28), (2023, 3, 1)),
        ((2024, 2, 28), (2024, 2, 29)),
        ((2024, 2, 29), (2024, 3, 1)),
        ((1900, 2, 28), (1900, 3, 1)),
        ((1999, 12, 31), (2000, 1, 1)),
        ((2026, 4, 30), (2026, 5, 1)),
    ] {
        assert_eq!(days_from_civil(y2, m2, d2), days_from_civil(y, m, d) + 1);
    }
}

#[test]
fn slash_separator_is_accepted_but_not_mixed() {
    assert_eq!(
        parse_datetime("2026/07/01").unwrap(),
        parse_datetime("2026-07-01").unwrap()
    );
    assert!(parse_datetime("2026-07/01").is_err());
}

#[test]
fn time_components_and_fractions_add_up() {
    let base = parse_datetime("2026-07-01").unwrap();
    assert_eq!(
        parse_datetime("2026-07-01T01:02:03").unwrap(),
        base + 3_723_000
    );
    assert_eq!(
        parse_datetime("2026-07-01 01:02").unwrap(),
        base + 3_720_000
    );
    assert_eq!(
        parse_datetime("2026-07-01T00:00:00.25").unwrap(),
        base + 250
    );
    assert_eq!(
        parse_datetime("2026-07-01T00:00:00.123456789").unwrap(),
        base + 123,
        "sub-millisecond digits truncate"
    );
}

#[test]
fn offsets_normalize_to_the_same_instant() {
    let utc = parse_datetime("2026-01-02T03:04:05Z").unwrap();
    assert_eq!(parse_datetime("2026-01-02T05:04:05+02:00").unwrap(), utc);
    assert_eq!(parse_datetime("2026-01-01T21:34:05-0530").unwrap(), utc);
    assert_eq!(parse_datetime("2026-01-02T10:04:05+07").unwrap(), utc);
}

#[test]
fn calendar_and_clock_bounds_are_enforced() {
    assert!(parse_datetime("2024-02-29").is_ok());
    assert!(parse_datetime("2000-02-29").is_ok(), "400-year rule");
    assert!(parse_datetime("2100-02-29").is_err(), "100-year rule");
    assert!(parse_datetime("2026-02-29").is_err());
    assert!(parse_datetime("2026-13-01").is_err());
    assert!(parse_datetime("2026-00-10").is_err());
    assert!(parse_datetime("2026-04-31").is_err());
    assert!(parse_datetime("2026-07-01T24:00").is_err());
    assert!(parse_datetime("2026-07-01T10:60").is_err());
}

#[test]
fn garbage_and_trailing_content_are_rejected() {
    assert!(parse_datetime("2026-07-01junk").is_err());
    assert!(parse_datetime("2026-07-01T10:00:00Zx").is_err());
    assert!(parse_datetime("").is_err());
    assert!(parse_datetime("not a date").is_err());
}

#[test]
fn instants_order_chronologically() {
    // The epoch-milliseconds values must order chronologically across
    // month, year and timezone boundaries.
    let seq = [
        "1999-12-31T23:59:59",
        "2000-01-01",
        "2000-02-29T12:00",
        "2026-07-01T09:00+09:00", // == 2026-07-01T00:00:00Z
        "2026-07-01T00:00:00.001",
    ];
    let parsed: Vec<i64> = seq.iter().map(|s| parse_datetime(s).unwrap()).collect();
    for pair in parsed.windows(2) {
        assert!(pair[0] < pair[1], "{parsed:?} must be strictly increasing");
    }
    // Cross-checked against `date -u -d 2026-07-01 +%s` == 1782864000.
    assert_eq!(
        parse_datetime("2026-07-01T00:00:00Z").unwrap(),
        1_782_864_000_000
    );
}

#[test]
fn every_day_of_four_centuries_is_the_day_after_the_last() {
    let mut expected = parse_datetime("1799-12-31").unwrap();
    for y in 1800..2201 {
        for m in 1..13 {
            let days = match m {
                2 if (y % 4 == 0 && y % 100 != 0) || y % 400 == 0 => 29,
                2 => 28,
                4 | 6 | 9 | 11 => 30,
                _ => 31,
            };
            for d in 1..days + 1 {
                expected += 86_400_000;
                let text = format!("{y:04}-{m:02}-{d:02}");
                assert_eq!(parse_datetime(&text).unwrap(), expected, "{text}");
            }
            let beyond = format!("{y:04}-{m:02}-{:02}", days + 1);
            assert!(parse_datetime(&beyond).is_err(), "{beyond}");
        }
    }
}

#[test]
fn the_first_and_last_years_are_counted() {
    assert_eq!(parse_datetime("0000-01-01").unwrap(), -62_167_219_200_000);
    assert_eq!(parse_datetime("0000-03-01").unwrap(), -62_162_035_200_000);
    assert_eq!(
        parse_datetime("9999-12-31T23:59:59.999Z").unwrap(),
        253_402_300_799_999
    );
}

#[test]
fn offsets_apply_to_every_shape() {
    let midnight = parse_datetime("2026-07-01").unwrap();
    assert_eq!(parse_datetime("2026-07-01Z").unwrap(), midnight);
    assert_eq!(parse_datetime("2026-07-01+01:00").unwrap(), midnight - 3_600_000);
    assert_eq!(parse_datetime("2026/07/01-0030").unwrap(), midnight + 1_800_000);
    assert_eq!(parse_datetime("2026-07-01T00:00z").unwrap(), midnight);
    assert_eq!(parse_datetime("2026-07-01T00:00.5+23:59").unwrap(), midnight + 500 - 86_340_000);
    assert_eq!(
        parse_datetime("2026-07-01T03:04:05.6").unwrap(),
        parse_datetime("2026-07-01T03:04:05.6Z").unwrap(),
        "times without an offset are UTC"
    );
    assert!(parse_datetime("2026-07-01T00:00+24").is_err());
    assert!(parse_datetime("2026-07-01T00:00+00:60").is_err());
    assert!(parse_datetime("2026-07-01T00:00+1").is_err());
    assert!(parse_datetime("2026-07-01T00:00+07:0").is_err());
    assert!(parse_datetime("2026-07-01T00:00:00.").is_err());
    assert!(parse_datetime("2026-07-01T00:00:00.1234567890").is_err());
}

#[test]
fn date_errors_are_exact() {
    assert_eq!(
        parse_datetime("2026-1-01").unwrap_err(),
        "cannot parse \"2026-1-01\" as a date"
    );
    assert_eq!(
        parse_datetime("2026-02-30T99").unwrap_err(),
        "\"2026-02-30T99\" is not a valid calendar date"
    );
    assert_eq!(
        parse_datetime("2026-02-03T23:59:60junk").unwrap_err(),
        "\"2026-02-03T23:59:60junk\" has an out-of-range time"
    );
    assert_eq!(
        parse_datetime("2026-02-03T23:59:5").unwrap_err(),
        "cannot parse \"2026-02-03T23:59:5\" as a date"
    );
}
