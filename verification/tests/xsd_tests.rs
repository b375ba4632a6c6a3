use activity_vocabulary::xsd::{DateTime, Duration};

#[test]
fn duration_parses_full_layout() {
    let d = Duration::parse("P3Y6M4DT12H30M5S").unwrap();
    assert_eq!(
        d,
        Duration {
            negative: false,
            years: 3,
            months: 6,
            days: 4,
            hours: 12,
            minutes: 30,
            seconds: 5,
        }
    );
}

#[test]
fn duration_parses_partial_layouts() {
    let d = Duration::parse("P7M").unwrap();
    assert_eq!(d.months, 7);
    assert_eq!(d.years, 0);
    let d = Duration::parse("PT5M").unwrap();
    assert_eq!(d.minutes, 5);
    assert_eq!(d.months, 0);
    let d = Duration::parse("P-2D").unwrap();
    assert!(d.negative);
    assert_eq!(d.days, 2);
}

#[test]
fn duration_rejects_bad_text() {
    assert!(Duration::parse("3Y").is_err());
    assert!(Duration::parse("P3").is_err());
    assert!(Duration::parse("P3YX").is_err());
    assert!(Duration::parse("").is_err());
}

#[test]
fn duration_round_trips() {
    for text in ["P3Y6M4DT12H30M5S", "P7M", "PT5M", "P-2D", "P", "PT90M"] {
        let d = Duration::parse(text).unwrap();
        let back = Duration::parse(&d.to_text()).unwrap();
        assert_eq!(d, back);
    }
}

#[test]
fn duration_renders_months_with_their_own_magnitude() {
    let d = Duration::parse("P1Y6M").unwrap();
    assert_eq!(d.to_text(), "P1Y6M");
}

#[test]
fn datetime_offset_round_trips() {
    let dt = DateTime::parse("2015-01-25T12:34:56Z").unwrap();
    match dt {
        DateTime::WithOffset {
            year,
            month,
            day,
            hour,
            minute,
            second,
            offset_minutes,
        } => {
            assert_eq!((year, month, day), (2015, 1, 25));
            assert_eq!((hour, minute, second), (12, 34, 56));
            assert_eq!(offset_minutes, 0);
        }
        _ => panic!("expected the offset grammar"),
    }
    let text = dt.to_text();
    assert_eq!(text, "2015-01-25T12:34:56+00:00");
    assert_eq!(DateTime::parse(&text).unwrap(), dt);
}

#[test]
fn datetime_naive_keeps_four_fraction_digits() {
    let dt = DateTime::parse("2015-01-25T12:34:56.0000").unwrap();
    let text = dt.to_text();
    assert_eq!(text, "2015-01-25T12:34:56.0000");
    assert_eq!(DateTime::parse(&text).unwrap(), dt);
}

#[test]
fn datetime_negative_offset_round_trips() {
    let dt = DateTime::parse("2015-06-01T00:30:00-05:30").unwrap();
    match dt {
        DateTime::WithOffset { offset_minutes, .. } => assert_eq!(offset_minutes, -330),
        _ => panic!("expected the offset grammar"),
    }
    assert_eq!(DateTime::parse(&dt.to_text()).unwrap(), dt);
}

#[test]
fn datetime_rejects_bad_dates() {
    assert!(DateTime::parse("2015-13-25T12:34:56Z").is_none());
    assert!(DateTime::parse("2015-02-29T12:34:56Z").is_none());
    assert!(DateTime::parse("not a date").is_none());
    assert!(DateTime::parse("2015-01-25").is_none());
}

#[test]
fn datetime_leap_day_accepted() {
    assert!(DateTime::parse("2016-02-29T00:00:00Z").is_some());
}
