use gtllm::history::ChatHistory;

#[test]
fn leap_years() {
    assert!(ChatHistory::is_leap_year(2000));
    assert!(ChatHistory::is_leap_year(2024));
    assert!(!ChatHistory::is_leap_year(1900));
    assert!(!ChatHistory::is_leap_year(2023));
}

#[test]
fn month_lengths() {
    assert_eq!(ChatHistory::days_in_month(0, false), 31);
    assert_eq!(ChatHistory::days_in_month(1, false), 28);
    assert_eq!(ChatHistory::days_in_month(1, true), 29);
    assert_eq!(ChatHistory::days_in_month(3, true), 30);
    assert_eq!(ChatHistory::days_in_month(11, false), 31);
    assert_eq!(ChatHistory::days_in_month(12, false), 30);
}

#[test]
fn days_to_dates() {
    assert_eq!(ChatHistory::days_to_date(0), (1970, 0, 1));
    assert_eq!(ChatHistory::days_to_date(31), (1970, 1, 1));
    assert_eq!(ChatHistory::days_to_date(59), (1970, 2, 1));
    assert_eq!(ChatHistory::days_to_date(364), (1970, 11, 31));
    assert_eq!(ChatHistory::days_to_date(365), (1971, 0, 1));
    // 2000-02-29
    assert_eq!(ChatHistory::days_to_date(11016), (2000, 1, 29));
    // 2024-12-31
    assert_eq!(ChatHistory::days_to_date(20088), (2024, 11, 31));
}

#[test]
fn calendar_reaches_the_last_year_of_i32() {
    assert!(ChatHistory::calendar_covers(0));
    assert!(ChatHistory::calendar_covers(784351576776));
    assert!(!ChatHistory::calendar_covers(784351576777));
    assert_eq!(ChatHistory::days_to_date(784351576776), (i32::MAX, 11, 31));
}

#[test]
fn test_format_timestamp() {
    let now = std::time::SystemTime::now()
        .duration_since(std::time::UNIX_EPOCH)
        .map(|d| d.as_secs())
        .unwrap_or(0);
    let timestamp = gtllm::text::decimal_string(now);
    assert!(!timestamp.is_empty());
    assert_eq!(timestamp, now.to_string());
}

#[test]
fn test_format_timestamp_display() {
    let now: u64 = 1_700_000_000;
    let display = ChatHistory::format_timestamp_display_at(&now.to_string(), now);
    assert!(!display.is_empty());
    assert_eq!(display, "Just now");
}

#[test]
fn relative_display() {
    let now: u64 = 1_700_000_000;
    let at = |ago: u64| ChatHistory::format_timestamp_display_at(&(now - ago).to_string(), now);
    assert_eq!(at(59), "Just now");
    assert_eq!(at(90), "1 minutes ago");
    assert_eq!(at(7200), "2 hours ago");
    assert_eq!(at(3 * 86400), "3 days ago");
    assert_eq!(at(30 * 86400), "30 days ago");
    assert_eq!(at(800 * 86400), "2 years ago");
    // A timestamp in the future reads as now.
    assert_eq!(ChatHistory::format_timestamp_display_at("1800000000", now), "Just now");
    assert_eq!(ChatHistory::format_timestamp_display_at("yesterday", now), "yesterday");
}

#[test]
fn date_labels() {
    let now: u64 = 1_700_000_000; // Tue, 14 Nov 2023
    assert_eq!(ChatHistory::format_timestamp_date_at("1700000000", now), "Today");
    assert_eq!(ChatHistory::format_timestamp_date_at("1699913600", now), "Yesterday");
    assert_eq!(ChatHistory::format_timestamp_date_at("1699654400", now), "4 days ago");
    assert_eq!(ChatHistory::format_timestamp_date_at("0", now), "Thu, 1st Jan");
    assert_eq!(ChatHistory::format_timestamp_date_at("1607731200", now), "Sat, 12th Dec");
    assert_eq!(ChatHistory::format_timestamp_date_at("1698883200", now), "Thu, 2nd Nov");
    assert_eq!(ChatHistory::format_timestamp_date_at("1698278400", now), "Thu, 26th Oct");
    assert_eq!(ChatHistory::format_timestamp_date_at("not a time", now), "not a time");
}

#[test]
fn the_latest_timestamp_the_display_takes() {
    let now: u64 = 1_700_000_000;
    assert_eq!(
        ChatHistory::format_timestamp_display_at("9223372036854775807", now),
        "Just now"
    );
    assert_eq!(
        ChatHistory::format_timestamp_display_at("0", now),
        "53 years ago"
    );
}
