use stobot::news::NewsItem;

// 2024-01-01 00:00:00 America/Los_Angeles (PST, UTC-8) as Unix seconds.
const EPOCH_2024_01_01: i64 = 1704096000;

fn item_with_updated(updated: &str) -> NewsItem {
    NewsItem::new(
        1,
        String::from("A title"),
        String::from("A summary"),
        vec![String::from("pc")],
        String::from(updated),
        None,
    )
}

#[test]
fn fresh_at_exact_epoch() {
    let item = item_with_updated("2024-01-01 00:00:00");
    assert!(item.is_fresh_at(EPOCH_2024_01_01, 0));
}

#[test]
fn fresh_symmetric_in_time_direction() {
    let item = item_with_updated("2024-01-01 00:00:00");
    // The clock 100 s after the item and 100 s before it agree.
    assert!(item.is_fresh_at(EPOCH_2024_01_01 + 100, 120));
    assert!(item.is_fresh_at(EPOCH_2024_01_01 - 100, 120));
    assert!(!item.is_fresh_at(EPOCH_2024_01_01 + 200, 120));
    assert!(!item.is_fresh_at(EPOCH_2024_01_01 - 200, 120));
}

#[test]
fn malformed_timestamps_never_fresh() {
    for bad in [
        "",
        "not a timestamp",
        "2024-13-45 99:99:99",
        "2024-01-01",
        "2024-01-01T00:00:00",
        "2024-01-01 00:00:00 extra",
    ] {
        let item = item_with_updated(bad);
        assert!(!item.is_fresh_at(EPOCH_2024_01_01, u64::MAX));
        assert!(!item.is_within_weeks_at(EPOCH_2024_01_01, 52));
    }
}

#[test]
fn skipped_local_time_not_fresh() {
    // 02:30 on 2024-03-10 does not exist in America/Los_Angeles
    // (spring-forward skips 02:00-03:00).
    let item = item_with_updated("2024-03-10 02:30:00");
    assert!(!item.is_fresh_at(1710064800, u64::MAX));
}

#[test]
fn ambiguous_local_time_not_fresh() {
    // 01:30 on 2024-11-03 occurs twice in America/Los_Angeles
    // (fall-back repeats 01:00-02:00).
    let item = item_with_updated("2024-11-03 01:30:00");
    assert!(!item.is_fresh_at(1730622600, u64::MAX));
}

#[test]
fn week_window_ten_days_past() {
    let item = item_with_updated("2024-01-01 00:00:00");
    let now = EPOCH_2024_01_01 + 10 * 24 * 3600;
    assert!(!item.is_within_weeks_at(now, 1));
    assert!(item.is_within_weeks_at(now, 2));
}

#[test]
fn clamp_weeks_bounds() {
    assert_eq!(stobot::clamp_weeks(0), 1);
    assert_eq!(stobot::clamp_weeks(-7), 1);
    assert_eq!(stobot::clamp_weeks(1), 1);
    assert_eq!(stobot::clamp_weeks(10), 10);
    assert_eq!(stobot::clamp_weeks(52), 52);
    assert_eq!(stobot::clamp_weeks(53), 52);
}
