//! Concrete checks of the library's general laws and of its timestamp
//! handling, including the round trip between formatting and parsing.

use whenwords::{
    date_range, duration, human_date, parse_duration, parse_iso8601, timeago, CivilDateTime,
    DurationOptions, Timestamp,
};

fn compact_all_units() -> DurationOptions {
    DurationOptions::new().compact(true).max_units(6)
}

#[test]
fn round_trip_compact_mixed() {
    // one of each unit below a month
    let s: i64 = 2 * 86400 + 3 * 3600 + 4 * 60 + 5;
    let text = duration(s, Some(compact_all_units())).unwrap();
    assert_eq!(text, "2d 3h 4m 5s");
    assert_eq!(parse_duration(&text).unwrap(), s);
}

#[test]
fn round_trip_compact_sweep() {
    let cases: [i64; 8] = [0, 1, 59, 60, 3601, 86400, 90061, 2591999];
    for &s in cases.iter() {
        let text = duration(s, Some(compact_all_units())).unwrap();
        assert_eq!(parse_duration(&text).unwrap(), s, "failed for {}", text);
    }
}

#[test]
fn round_trip_fails_at_one_month() {
    // the month short code is not a recognized parse unit
    let text = duration(2592000, Some(compact_all_units())).unwrap();
    assert_eq!(text, "1mo");
    assert!(parse_duration(&text).is_err());
}

#[test]
fn timeago_identity_is_just_now() {
    for &t in [0i64, -5, 1704067200, i64::MAX, i64::MIN].iter() {
        assert_eq!(timeago(t, t), "just now");
    }
}

#[test]
fn date_range_swap_invariance() {
    let pairs: [(i64, i64); 4] = [
        (1705276800, 1705881600),
        (1705881600, 1705276800),
        (1703721600, 1705276800),
        (1672531200, 1735689600),
    ];
    for &(a, b) in pairs.iter() {
        assert_eq!(date_range(a, b), date_range(b, a));
    }
}

#[test]
fn duration_negative_fails_with_message() {
    let e = duration(-1, None).unwrap_err();
    assert_eq!(e.message, "Duration cannot be negative");
}

#[test]
fn parse_duration_negative_fails_with_message() {
    let e = parse_duration("-5 hours").unwrap_err();
    assert_eq!(e.message, "Duration cannot be negative");
}

#[test]
fn parse_duration_empty_message() {
    let e = parse_duration("   ").unwrap_err();
    assert_eq!(e.message, "Duration string cannot be empty");
}

#[test]
fn parse_duration_unknown_unit_message() {
    let e = parse_duration("5 parsecs").unwrap_err();
    assert_eq!(e.message, "Unknown unit: parsecs");
}

#[test]
fn parse_duration_no_units_message() {
    let e = parse_duration("42").unwrap_err();
    assert_eq!(e.message, "Cannot parse duration: 42");
}

#[test]
fn parse_duration_unicode_whitespace_separators() {
    // non-ASCII whitespace between number and unit is still whitespace
    assert_eq!(parse_duration("2\u{a0}hours 30\u{2009}minutes").unwrap(), 9000);
}

#[test]
fn parse_duration_tab_and_newline_whitespace() {
    assert_eq!(parse_duration("\t2 hours\n30 minutes\r\n").unwrap(), 9000);
}

#[test]
fn parse_duration_fractional_accumulation() {
    // two half-second tokens round up once, after summing
    assert_eq!(parse_duration("0.3s 0.3s").unwrap(), 1);
    assert_eq!(parse_duration("0.25h 0.25h").unwrap(), 1800);
}

#[test]
fn parse_duration_stray_punctuation_is_skipped() {
    assert_eq!(parse_duration("(2h) [30m]!").unwrap(), 9000);
}

#[test]
fn parse_duration_malformed_number_skips_following_unit() {
    // an unparseable numeric token silently swallows what follows it
    let e = parse_duration("1.2.3 hours").unwrap_err();
    assert_eq!(e.message, "Cannot parse duration: 1.2.3 hours");
}

#[test]
fn parse_duration_colon_rejects_non_digits() {
    // falls through to the free-form grammar: the colon is a stray
    // character there, and a bare trailing number is discarded
    assert_eq!(parse_duration("2h:30").unwrap(), 7200);
    assert_eq!(parse_duration("2h :30m").unwrap(), 9000);
}

#[test]
fn timeago_boundaries() {
    let r: i64 = 1704067200;
    assert_eq!(timeago(r - 44, r), "just now");
    assert_eq!(timeago(r - 45, r), "1 minute ago");
    assert_eq!(timeago(r - 89, r), "1 minute ago");
    assert_eq!(timeago(r - 90, r), "2 minutes ago");
    assert_eq!(timeago(r - 2699, r), "45 minutes ago");
    assert_eq!(timeago(r - 2700, r), "1 hour ago");
    assert_eq!(timeago(r - 5399, r), "1 hour ago");
    assert_eq!(timeago(r - 5400, r), "2 hours ago");
    assert_eq!(timeago(r - 79199, r), "22 hours ago");
    assert_eq!(timeago(r - 79200, r), "1 day ago");
    assert_eq!(timeago(r - 129599, r), "1 day ago");
    assert_eq!(timeago(r - 129600, r), "2 days ago");
    assert_eq!(timeago(r - 2246399, r), "26 days ago");
    assert_eq!(timeago(r - 2246400, r), "1 month ago");
    assert_eq!(timeago(r - 3974399, r), "1 month ago");
    assert_eq!(timeago(r - 3974400, r), "2 months ago");
    assert_eq!(timeago(r - 27647999, r), "11 months ago");
    assert_eq!(timeago(r - 27648000, r), "1 year ago");
    assert_eq!(timeago(r - 47347199, r), "1 year ago");
    assert_eq!(timeago(r - 47347200, r), "2 years ago");
}

#[test]
fn duration_formula_examples() {
    assert_eq!(duration(93661, Some(DurationOptions::new().max_units(3))).unwrap(),
        "1 day, 2 hours, 1 minute");
    assert_eq!(duration(9000, Some(DurationOptions::new().compact(true).max_units(1))).unwrap(),
        "2h");
    assert_eq!(duration(36720000, None).unwrap(), "1 year, 2 months");
}

#[test]
fn parse_iso8601_z_suffix() {
    let t = parse_iso8601("2024-01-01T00:00:00Z").unwrap();
    assert_eq!(t.to_unix_seconds(), 1704067200);
}

#[test]
fn parse_iso8601_offset() {
    let t = parse_iso8601("2024-01-01T05:30:00+05:30").unwrap();
    assert_eq!(t.to_unix_seconds(), 1704067200);
}

#[test]
fn parse_iso8601_rejects_bad_text() {
    let e = parse_iso8601("yesterday").unwrap_err();
    assert_eq!(e.message, "Invalid timestamp format: yesterday");
}

#[test]
fn parse_iso8601_rejects_date_only() {
    assert!(parse_iso8601("2024-01-01").is_err());
}

#[test]
fn timestamp_civil_round_trip() {
    let t = Timestamp::Unix(1705276800);
    let c = t.to_datetime();
    assert_eq!(c.year, 2024);
    assert_eq!(c.month, 1);
    assert_eq!(c.day, 15);
    assert_eq!(c.hour, 0);
    assert_eq!(Timestamp::Civil(c).to_unix_seconds(), 1705276800);
}

#[test]
fn timestamp_civil_with_time_of_day() {
    let c = CivilDateTime { year: 2024, month: 2, day: 29, hour: 12, minute: 34, second: 56 };
    let s = Timestamp::Civil(c).to_unix_seconds();
    assert_eq!(s, 1709210096);
    let back = Timestamp::Unix(s).to_datetime();
    assert_eq!(back, c);
}

#[test]
fn timestamp_negative_instant() {
    // 1969-12-31T23:59:59Z
    let c = Timestamp::Unix(-1).to_datetime();
    assert_eq!((c.year, c.month, c.day), (1969, 12, 31));
    assert_eq!((c.hour, c.minute, c.second), (23, 59, 59));
}

#[test]
fn human_date_negative_year_span() {
    // the proleptic calendar extends before the epoch
    assert_eq!(human_date(-86400 * 730000, 1705276800), "May 1, -29");
}

#[test]
fn duration_max_units_zero_renders_empty() {
    assert_eq!(duration(90, Some(DurationOptions::new().max_units(0))).unwrap(), "");
    assert_eq!(duration(0, Some(DurationOptions::new().max_units(0))).unwrap(), "0 seconds");
}

#[test]
fn parse_duration_case_folding_units() {
    assert_eq!(parse_duration("1 DAY, 2 Hours And 30 MINUTES").unwrap(), 95400);
}

#[test]
fn parse_duration_big_values_saturate() {
    assert_eq!(parse_duration("99999999999999999999999999 weeks").unwrap(), i64::MAX);
}

#[test]
fn parse_duration_colon_overflowing_field_reads_zero() {
    // a field too large for the count parses as zero hours
    assert_eq!(parse_duration("99999999999999999999:30").unwrap(), 1800);
}
