use netflow::calendar::civil_from_days;
use netflow::moment::{Moment, FIRST_SECOND, LAST_SECOND};

#[test]
fn epoch_is_the_first_of_january_1970() {
    assert_eq!(civil_from_days(0), (1970, 1, 1));
}

#[test]
fn dates_of_days() {
    assert_eq!(civil_from_days(-1), (1969, 12, 31));
    assert_eq!(civil_from_days(58), (1970, 2, 28));
    assert_eq!(civil_from_days(59), (1970, 3, 1));
    assert_eq!(civil_from_days(11_016), (2000, 2, 29));
    assert_eq!(civil_from_days(11_017), (2000, 3, 1));
    assert_eq!(civil_from_days(20_337), (2025, 9, 6));
    assert_eq!(civil_from_days(47_540), (2100, 2, 28));
    assert_eq!(civil_from_days(47_541), (2100, 3, 1));
    assert_eq!(civil_from_days(-719_528), (0, 1, 1));
    assert_eq!(civil_from_days(-719_529), (-1, 12, 31));
}

#[test]
fn days_follow_each_other() {
    let mut before = civil_from_days(-1000);
    for z in -999..1000 {
        let (y, m, d) = civil_from_days(z);
        let same_month = (y, m, d) == (before.0, before.1, before.2 + 1);
        let next_month = (y, m, d) == (before.0, before.1 + 1, 1);
        let next_year = (y, m, d) == (before.0 + 1, 1, 1) && before.1 == 12 && before.2 == 31;
        assert!(same_month || next_month || next_year);
        before = (y, m, d);
    }
}

#[test]
fn moments_are_those_that_have_a_date() {
    assert_eq!(FIRST_SECOND, chrono::DateTime::<chrono::Utc>::MIN_UTC.timestamp());
    assert_eq!(LAST_SECOND, chrono::DateTime::<chrono::Utc>::MAX_UTC.timestamp());
    let edges = [
        FIRST_SECOND - 1,
        FIRST_SECOND,
        -61,
        -60,
        -1,
        0,
        58,
        59,
        60,
        119,
        LAST_SECOND,
        LAST_SECOND + 1,
        i64::MIN,
        i64::MAX,
    ];
    for secs in edges {
        for nanos in [0, 999_999_999, 1_000_000_000, 1_999_999_999, 2_000_000_000, u32::MAX] {
            let there = chrono::DateTime::from_timestamp(secs, nanos).is_some();
            assert_eq!(Moment::new(secs, nanos).is_some(), there);
        }
    }
}

#[test]
fn moments_read_and_written() {
    let m = Moment::parse("2026-09-06T12:57:03Z").unwrap();
    assert_eq!(m.to_nanos(), Some(1_788_699_423_000_000_000));
    assert_eq!(m.to_text(), "2026-09-06T12:57:03+00:00");
    assert_eq!(m.date(), "2026-09-06");
    let n = Moment::parse("2025-03-15T17:10:51.064235982Z").unwrap();
    assert_eq!(n.to_nanos(), Some(1_742_058_651_064_235_982));
    assert_eq!(n.to_text(), "2025-03-15T17:10:51.064235982+00:00");
}

#[test]
fn moments_taken_to_utc() {
    let m = Moment::parse("2025-01-01T01:30:00+02:00").unwrap();
    assert_eq!(m.date(), "2024-12-31");
    assert_eq!(m.to_text(), "2024-12-31T23:30:00+00:00");
    let n = Moment::parse("2024-12-31T23:30:00-01:00").unwrap();
    assert_eq!(n.date(), "2025-01-01");
}

#[test]
fn moments_refused() {
    assert!(Moment::parse("").is_none());
    assert!(Moment::parse("2025-03-15").is_none());
    assert!(Moment::parse("2025-03-15T17:10:51").is_none());
    assert!(Moment::parse("2025-02-29T00:00:00Z").is_none());
    assert!(Moment::parse("1742058651").is_none());
}

#[test]
fn moments_far_off() {
    let late = Moment::new(9_223_372_036, 854_775_807).unwrap();
    assert_eq!(late.to_nanos(), Some(i64::MAX));
    assert_eq!(Moment::new(9_223_372_036, 854_775_808).unwrap().to_nanos(), None);
    let early = Moment::new(-9_223_372_037, 145_224_192).unwrap();
    assert_eq!(early.to_nanos(), Some(i64::MIN));
    assert_eq!(Moment::new(-9_223_372_037, 145_224_191).unwrap().to_nanos(), None);
    assert_eq!(Moment::new(FIRST_SECOND, 0).unwrap().date(), "-262143-01-01");
    assert_eq!(Moment::new(LAST_SECOND, 0).unwrap().date(), "+262142-12-31");
    // The year before 0 and the first of five digits.
    assert_eq!(Moment::new(-62_167_219_201, 0).unwrap().date(), "-0001-12-31");
    assert_eq!(Moment::new(-62_167_219_200, 0).unwrap().date(), "0000-01-01");
    assert_eq!(Moment::new(253_402_300_799, 0).unwrap().date(), "9999-12-31");
    assert_eq!(Moment::new(253_402_300_800, 0).unwrap().date(), "+10000-01-01");
}

#[test]
fn moments_in_leap_seconds() {
    let m = Moment::parse("2016-12-31T23:59:60.5Z").unwrap();
    assert_eq!(m.to_nanos(), Some(1_483_228_800_500_000_000));
    assert_eq!(m.date(), "2016-12-31");
    assert_eq!(m.to_text(), "2016-12-31T23:59:60.500+00:00");
}

#[test]
fn moments_written_with_a_fraction() {
    let written = |secs: i64, nanos: u32| Moment::new(secs, nanos).unwrap().to_text();
    assert_eq!(written(0, 0), "1970-01-01T00:00:00+00:00");
    assert_eq!(written(-1, 7_000_000), "1969-12-31T23:59:59.007+00:00");
    assert_eq!(written(3_661, 20_000), "1970-01-01T01:01:01.000020+00:00");
    assert_eq!(written(86_399, 1), "1970-01-01T23:59:59.000000001+00:00");
    assert_eq!(written(-62_167_219_201, 0), "-0001-12-31T23:59:59+00:00");
    assert_eq!(written(253_402_300_800, 0), "+10000-01-01T00:00:00+00:00");
}
