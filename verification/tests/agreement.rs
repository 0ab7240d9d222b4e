use calendar::civil::{days_from_epoch, is_valid_date};
use calendar::pattern::read_utc_form;
use calendar::{try_read_timezone_datetime, try_read_utc_datetime, CivilDateTime, Instant, Property};
use chrono::{Datelike, NaiveDate, NaiveDateTime, TimeZone, Utc};

fn start(zone: Option<&str>, value: String) -> Property {
    Property {
        name: String::from("DTSTART"),
        params: zone.map(|zone| vec![(String::from("TZID"), vec![String::from(zone)])]),
        value: Some(value),
    }
}

#[test]
fn valid_dates_are_those_chrono_accepts() {
    for year in [0u16, 1, 4, 100, 400, 1582, 1899, 1900, 1970, 1999, 2000, 2020, 2100, 9999] {
        for month in 0..=13u8 {
            for day in 0..=32u8 {
                let theirs = NaiveDate::from_ymd_opt(year as i32, month as u32, day as u32);
                assert_eq!(is_valid_date(year, month, day), theirs.is_some(), "{year}-{month}-{day}");
            }
        }
    }
}

#[test]
fn day_numbers_are_those_of_chrono() {
    let epoch = NaiveDate::from_ymd_opt(1970, 1, 1).unwrap();
    let mut date = NaiveDate::from_ymd_opt(0, 1, 1).unwrap();
    let end = NaiveDate::from_ymd_opt(9999, 12, 31).unwrap();
    let mut expected: i64 = -719_528;
    while date <= end {
        let ours = days_from_epoch(date.year() as u16, date.month() as u8, date.day() as u8);
        assert_eq!(ours, Some(expected), "{date}");
        assert_eq!(ours, Some((date - epoch).num_days()), "{date}");
        date = match date.succ_opt() {
            Some(next) => next,
            None => return,
        };
        expected += 1;
    }
}

#[test]
fn seconds_are_the_timestamps_of_chrono() {
    for year in [0u16, 1, 1600, 1969, 1970, 2000, 2020, 2038, 9999] {
        for month in 1..=12u8 {
            for day in [1u8, 15, 28] {
                for (hour, minute, second) in [(0u8, 0u8, 0u8), (12, 34, 56), (23, 59, 59)] {
                    let fields = CivilDateTime { year, month, day, hour, minute, second };
                    let theirs = Utc
                        .with_ymd_and_hms(
                            year as i32,
                            month as u32,
                            day as u32,
                            hour as u32,
                            minute as u32,
                            second as u32,
                        )
                        .unwrap();
                    assert_eq!(fields.seconds_from_epoch(), Some(theirs.timestamp()));
                    let instant = fields.to_instant().unwrap();
                    assert_eq!(instant, Instant { secs: theirs.timestamp(), leap: false });
                    let days = theirs.date_naive() - NaiveDate::from_ymd_opt(1970, 1, 1).unwrap();
                    assert_eq!(instant.day(), days.num_days());
                }
            }
        }
    }
}

#[test]
fn utc_values_are_read_as_chrono_reads_them() {
    let mut seed: u64 = 7;
    for _ in 0..20_000 {
        seed = seed.wrapping_mul(6_364_136_223_846_793_005).wrapping_add(1_442_695_040_888_963_407);
        let year = (seed >> 16) % 10_000;
        let month = (seed >> 30) % 14;
        let day = (seed >> 36) % 33;
        let hour = (seed >> 42) % 25;
        let minute = (seed >> 48) % 61;
        let second = (seed >> 54) % 62;
        let text = format!("{year:04}{month:02}{day:02}T{hour:02}{minute:02}{second:02}Z");
        let ours = try_read_utc_datetime(&start(None, text.clone()));
        let theirs = NaiveDateTime::parse_from_str(&text, "%Y%m%dT%H%M%SZ").ok();
        match (ours, theirs) {
            (None, None) => {}
            (Some(ours), Some(theirs)) => {
                assert_eq!(ours.secs, theirs.and_utc().timestamp(), "{text}");
                assert_eq!(ours.leap, theirs.and_utc().timestamp_subsec_nanos() >= 1_000_000_000, "{text}");
                assert_eq!(ours.leap, second == 60, "{text}");
            }
            (ours, theirs) => panic!("{text}: {ours:?} against {theirs:?}"),
        }
        let fields = read_utc_form(&text).unwrap();
        assert_eq!(
            (fields.year as u64, fields.month as u64, fields.day as u64),
            (year, month, day)
        );
        assert_eq!(
            (fields.hour as u64, fields.minute as u64, fields.second as u64),
            (hour, minute, second)
        );
    }
}

#[test]
fn zoned_values_are_read_as_chrono_tz_reads_them() {
    for name in ["America/New_York", "Europe/Berlin", "Australia/Lord_Howe", "Asia/Kolkata", "UTC"] {
        let zone: chrono_tz::Tz = name.parse().unwrap();
        let mut local = NaiveDate::from_ymd_opt(2020, 1, 1).unwrap().and_hms_opt(0, 0, 0).unwrap();
        let end = NaiveDate::from_ymd_opt(2021, 1, 1).unwrap().and_hms_opt(0, 0, 0).unwrap();
        let mut skipped = 0;
        let mut found = 0;
        while local < end {
            let text = local.format("%Y%m%dT%H%M%S").to_string();
            let ours = try_read_timezone_datetime(&start(Some(name), text.clone()));
            let theirs = zone.from_local_datetime(&local).single();
            match (ours, theirs) {
                (None, None) => skipped += 1,
                (Some(ours), Some(theirs)) => {
                    assert_eq!(ours, Instant { secs: theirs.timestamp(), leap: false }, "{name} {text}");
                    let back = zone.timestamp_opt(ours.secs, 0).unwrap().naive_local();
                    assert_eq!(back, local, "{name} {text}");
                    found += 1;
                }
                (ours, theirs) => panic!("{name} {text}: {ours:?} against {theirs:?}"),
            }
            local += chrono::TimeDelta::minutes(15);
        }
        assert!(found > 35_000, "{name}");
        if name == "America/New_York" || name == "Europe/Berlin" {
            assert_eq!(skipped, 8, "{name}");
        }
        if name == "UTC" || name == "Asia/Kolkata" {
            assert_eq!(skipped, 0, "{name}");
        }
    }
}
