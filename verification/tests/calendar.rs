use ui::calendar::{civil_from_days, date_to_unix, day_label, days_from_civil, label, LabelStyle};

const DAY: i64 = 86_400;

#[test]
fn labels_days() {
    assert_eq!(day_label(0), "Jan 1, 1970");
    assert_eq!(day_label(20_454), "Jan 1, 2026");
    for day in [-1, 0, 59, 20_454, 20_700] {
        let (y, m, d) = civil_from_days(day);
        assert_eq!(days_from_civil(y, m, d), day);
    }
}

#[test]
fn labels_use_local_clock() {
    // 2026-01-01 00:00 UTC is 07:00 in UTC+7.
    assert_eq!(label(20_454 * DAY, LabelStyle::Time), "07:00");
    assert_eq!(label(20_454 * DAY, LabelStyle::Date), "1 Jan");
}

#[test]
fn civil_dates_of_known_days() {
    assert_eq!(civil_from_days(0), (1970, 1, 1));
    assert_eq!(civil_from_days(-1), (1969, 12, 31));
    assert_eq!(civil_from_days(59), (1970, 3, 1));
    // 2000 is a leap year, 1900 is not.
    assert_eq!(civil_from_days(days_from_civil(2000, 2, 29)), (2000, 2, 29));
    assert_eq!(civil_from_days(days_from_civil(1900, 2, 28) + 1), (1900, 3, 1));
    assert_eq!(days_from_civil(2026, 1, 1), 20_454);
    assert_eq!(civil_from_days(-719_468), (0, 3, 1));
}

#[test]
fn round_trips_many_days() {
    let mut day = -800_000;
    while day < 800_000 {
        let (y, m, d) = civil_from_days(day);
        assert!((1..=12).contains(&m) && (1..=31).contains(&d));
        assert_eq!(days_from_civil(y, m, d), day);
        day += 37;
    }
}

#[test]
fn day_time_labels() {
    // 2026-03-05 07:30 UTC is 14:30 in UTC+7.
    let ts = days_from_civil(2026, 3, 5) * DAY + 7 * 3600 + 1800;
    assert_eq!(label(ts, LabelStyle::DayTime), "5 Mar 14:30");
    assert_eq!(label(ts, LabelStyle::Time), "14:30");
    // Late UTC evening is already the next day in UTC+7.
    let late = days_from_civil(2025, 12, 31) * DAY + 20 * 3600;
    assert_eq!(label(late, LabelStyle::DayTime), "1 Jan 03:00");
    assert_eq!(day_label(-1), "Dec 31, 1969");
    assert_eq!(day_label(days_from_civil(-5, 6, 7)), "Jun 7, -5");
}

#[test]
fn dates_to_unix_time() {
    assert_eq!(date_to_unix("1970-01-01"), Some(0));
    assert_eq!(date_to_unix(" 2026-01-01\n"), Some(20_454 * DAY));
    assert_eq!(date_to_unix("+2026-+01-01"), Some(20_454 * DAY));
    assert_eq!(date_to_unix("2026-01"), None);
    assert_eq!(date_to_unix("2026-01-01-05"), None);
    assert_eq!(date_to_unix("2026-x-01"), None);
    assert_eq!(date_to_unix("2026--1-01"), None);
    assert_eq!(date_to_unix(""), None);
    assert_eq!(date_to_unix("-1-01-01"), None);
    // Days past the month's end run on into the next month.
    assert_eq!(date_to_unix("2026-01-32"), Some(20_485 * DAY));
}

#[test]
fn dates_past_the_i64_range_read_as_none() {
    assert_eq!(date_to_unix("9223372036854775807-01-01"), None);
    assert_eq!(date_to_unix("-9223372036854775808-01-01"), None);
    assert_eq!(date_to_unix("300000000000-01-01"), None);
    assert!(date_to_unix("1000000000-01-01").is_some());
}
