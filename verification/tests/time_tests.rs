use placard::time::{Duration, MAX_SECS, MIN_SECS, TimeZone, Timestamp, parse_iso, show_clock};

use chrono::{DateTime, TimeDelta, Utc};

fn ours(t: DateTime<Utc>) -> Timestamp {
    Timestamp::new(t.timestamp(), t.timestamp_subsec_nanos()).unwrap()
}

#[test]
fn iso_instants_are_read_as_chrono_reads_them() {
    let samples = [
        "2026-09-08T19:30:00Z",
        "2026-09-08T19:30:00.5+01:00",
        "1969-12-31T23:59:59.999999999Z",
        "2016-12-31T23:59:60.25Z",
        "2026-09-08 19:30:00Z",
        "tomorrow",
        "",
        "2026-13-01T00:00:00Z",
        "2026-09-08",
    ];
    for s in samples {
        let want = s.parse::<DateTime<Utc>>().ok();
        let got = parse_iso(s).map(|t| (t.unix_secs(), t.subsec_nanos()));
        assert_eq!(got, want.map(|t| (t.timestamp(), t.timestamp_subsec_nanos())), "{s:?}");
    }
}

#[test]
fn every_instant_of_chrono_is_an_instant() {
    for t in [DateTime::<Utc>::MIN_UTC, DateTime::<Utc>::MAX_UTC] {
        assert!(Timestamp::new(t.timestamp(), t.timestamp_subsec_nanos()).is_some());
    }
    assert_eq!(DateTime::<Utc>::MIN_UTC.timestamp(), MIN_SECS);
    assert_eq!(DateTime::<Utc>::MAX_UTC.timestamp(), MAX_SECS);
    assert!(Timestamp::new(MAX_SECS + 1, 0).is_none());
    assert!(Timestamp::new(MIN_SECS - 1, 0).is_none());
    // A leap second only follows second 59.
    assert!(Timestamp::new(59, 1_500_000_000).is_some());
    assert!(Timestamp::new(58, 1_500_000_000).is_none());
    assert!(Timestamp::new(59, 2_000_000_000).is_none());
}

#[test]
fn spans_and_sums_agree_with_chrono() {
    let samples: Vec<DateTime<Utc>> = [
        "2026-09-08T18:30:00Z",
        "2026-09-08T18:30:00.000000001Z",
        "2016-12-31T23:59:60.25Z",
        "2016-12-31T23:59:59.75Z",
        "2017-01-01T00:00:00Z",
        "1960-02-29T12:00:00.125Z",
    ]
    .iter()
    .map(|s| s.parse().unwrap())
    .collect();
    for a in &samples {
        for b in &samples {
            let want = (*a - *b).num_nanoseconds().unwrap() as i128;
            assert_eq!(ours(*a).nanos_after(ours(*b)), want, "{a} - {b}");
        }
        for n in [0u32, 1, 59, 86_400, u32::MAX] {
            let want = *a + TimeDelta::seconds(i64::from(n));
            assert_eq!(ours(*a).plus_secs(n), ours(want), "{a} + {n}");
        }
    }
}

#[test]
fn zones_are_found_by_name() {
    assert_eq!(TimeZone::find("Europe/London").unwrap().name(), "Europe/London");
    assert!(TimeZone::find("Europe/Atlantis").is_none());
    let summer = parse_iso("2026-07-15T12:00:00Z").unwrap();
    assert_eq!(TimeZone::find("Europe/London").unwrap().offset_at(summer), 3600);
    assert_eq!(TimeZone::find("America/St_Johns").unwrap().offset_at(summer), -9000);
}

#[test]
fn clock_face_wraps_around_midnight_and_shows_leap_seconds() {
    let t = parse_iso("2026-07-15T23:59:58Z").unwrap();
    assert_eq!(show_clock(t, 0), "23:59:58");
    assert_eq!(show_clock(t, 3600), "00:59:58");
    assert_eq!(show_clock(t, -86_399), "23:59:59");
    let leap = parse_iso("2016-12-31T23:59:60.25Z").unwrap();
    assert_eq!(show_clock(leap, 0), "23:59:60");
    let before_epoch = parse_iso("1969-12-31T23:59:59Z").unwrap();
    assert_eq!(show_clock(before_epoch, 0), "23:59:59");
}

#[test]
fn durations_count_whole_units() {
    assert_eq!(Duration::from_secs(3), Duration::from_millis(3000));
    assert_eq!(Duration::from_millis(1999).as_secs(), 1);
    assert_eq!(Duration { nanos: 1_999_999 }.as_millis(), 1);
    assert_eq!(
        Duration::from_secs(1).saturating_sub(Duration::from_secs(2)),
        Duration::from_secs(0)
    );
    assert_eq!(
        Duration::from_secs(5).saturating_sub(Duration::from_millis(1500)),
        Duration::from_millis(3500)
    );
}
