use process_usage::clock::{
    format_report_time, report_time_from_reading, FIRST_FORMATTED_SECS, LAST_FORMATTED_SECS,
};

#[test]
fn epoch_is_written_at_utc_plus_eight() {
    assert_eq!(format_report_time(0), Some("1970-01-01 08:00:00".to_string()));
}

#[test]
fn known_instant_is_written_at_utc_plus_eight() {
    // 2024-02-29 20:30:15 UTC
    assert_eq!(format_report_time(1_709_238_615), Some("2024-03-01 04:30:15".to_string()));
}

#[test]
fn instants_before_the_epoch_are_written() {
    assert_eq!(format_report_time(-1), Some("1970-01-01 07:59:59".to_string()));
    assert_eq!(format_report_time(-28_800), Some("1970-01-01 00:00:00".to_string()));
}

#[test]
fn formatted_range_edges() {
    assert_eq!(format_report_time(FIRST_FORMATTED_SECS), Some("0001-01-01 08:00:00".to_string()));
    assert_eq!(format_report_time(FIRST_FORMATTED_SECS - 1), None);
    assert_eq!(format_report_time(LAST_FORMATTED_SECS), Some("+10000-01-01 07:59:59".to_string()));
    assert_eq!(format_report_time(LAST_FORMATTED_SECS + 1), None);
    assert_eq!(
        format_report_time(LAST_FORMATTED_SECS - 28_800),
        Some("9999-12-31 23:59:59".to_string())
    );
}

#[test]
fn readings_round_down_to_the_second() {
    assert_eq!(report_time_from_reading(Ok((0, 999_999_999))), Some("1970-01-01 08:00:00".to_string()));
    assert_eq!(report_time_from_reading(Err((1, 5))), Some("1970-01-01 07:59:58".to_string()));
    assert_eq!(report_time_from_reading(Err((1, 0))), Some("1970-01-01 07:59:59".to_string()));
    assert_eq!(report_time_from_reading(Ok((LAST_FORMATTED_SECS as u64 + 1, 0))), None);
    assert_eq!(report_time_from_reading(Err((62_135_596_800, 0))), Some("0001-01-01 08:00:00".to_string()));
    assert_eq!(report_time_from_reading(Err((62_135_596_800, 1))), None);
}
