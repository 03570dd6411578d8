use sector::time::{age_label, format_datetime, humanize_age, seconds_since, Stamp};

fn at(secs: i64) -> Stamp {
    Stamp { secs, nanos: 0 }
}

#[test]
fn age_labels_change_unit_with_scale() {
    const D: u64 = 86_400;
    assert_eq!(age_label(30), "just now");
    assert_eq!(age_label(5 * 60), "5m ago");
    assert_eq!(age_label(3 * 3600), "3h ago");
    assert_eq!(age_label(12 * D), "12d ago");
    assert_eq!(age_label(45 * D), "1mo ago");
    assert_eq!(age_label(200 * D), "6mo ago");
    assert_eq!(age_label(365 * D), "1y ago");
    assert_eq!(age_label(725 * D), "1y 11mo ago"); // never a twelfth month
    assert_eq!(age_label(729 * D), "1y 11mo ago");
    assert_eq!(age_label(730 * D), "2y ago");
    assert_eq!(age_label(496 * D), "1y 4mo ago"); // the screenshot's case
    assert_eq!(age_label(1000 * D), "2y 9mo ago");
}

#[test]
fn datetime_known_values() {
    assert_eq!(format_datetime(at(0)), "1970-01-01 00:00 UTC");
    // 2021-01-01 00:00:00 UTC = 1_609_459_200 s.
    assert_eq!(format_datetime(at(1_609_459_200)), "2021-01-01 00:00 UTC");
    // + 13h 37m.
    assert_eq!(format_datetime(at(1_609_459_200 + 13 * 3600 + 37 * 60)), "2021-01-01 13:37 UTC");
}

#[test]
fn leap_days_and_turns_of_years() {
    assert_eq!(format_datetime(at(951_782_400)), "2000-02-29 00:00 UTC");
    assert_eq!(format_datetime(at(951_868_799)), "2000-02-29 23:59 UTC");
    assert_eq!(format_datetime(at(951_868_800)), "2000-03-01 00:00 UTC");
    assert_eq!(format_datetime(at(1_709_164_800)), "2024-02-29 00:00 UTC");
    assert_eq!(format_datetime(at(1_735_689_599)), "2024-12-31 23:59 UTC");
    assert_eq!(format_datetime(at(4_107_542_400)), "2100-03-01 00:00 UTC");
    assert_eq!(format_datetime(at(-1)), "—");
    assert_eq!(format_datetime(Stamp { secs: -1, nanos: 999_999_999 }), "—");
}

#[test]
fn ages_count_whole_seconds() {
    let from = Stamp { secs: 10, nanos: 600_000_000 };
    assert_eq!(seconds_since(from, Stamp { secs: 12, nanos: 500_000_000 }), 1);
    assert_eq!(seconds_since(from, Stamp { secs: 12, nanos: 600_000_000 }), 2);
    assert_eq!(seconds_since(from, at(5)), 0);
    assert_eq!(seconds_since(at(i64::MIN), at(i64::MAX)), u64::MAX);
    assert_eq!(humanize_age(at(1000), at(900)), "just now");
    assert_eq!(humanize_age(at(0), at(7200)), "2h ago");
}

#[test]
fn ages_at_the_thresholds() {
    assert_eq!(age_label(89), "just now");
    assert_eq!(age_label(90), "1m ago");
    assert_eq!(age_label(5399), "89m ago");
    assert_eq!(age_label(5400), "1h ago");
    assert_eq!(age_label(129_599), "35h ago");
    assert_eq!(age_label(129_600), "1d ago");
    assert_eq!(age_label(30 * 86_400), "1mo ago");
}
