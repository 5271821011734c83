use td::datetime::{add_days, add_minutes, format_datetime, DateTime};
use td::deadline::{current_datetime, parse_deadline, parse_deadline_at};
use td::errors::TodoError;

fn at(year: u64, month: u64, day: u64, hour: u64, minute: u64, second: u64) -> DateTime {
    DateTime { year, month, day, hour, minute, second }
}

#[test]
fn bare_date_defaults_to_end_of_day() {
    let dt = parse_deadline(Some("2025-03-01".to_string())).unwrap();
    assert_eq!(dt, at(2025, 3, 1, 23, 59, 59));
}

#[test]
fn full_date_time_parses_exactly() {
    let dt = parse_deadline(Some("2025-03-01 10:30".to_string())).unwrap();
    assert_eq!(dt, at(2025, 3, 1, 10, 30, 0));
}

#[test]
fn offset_adds_days_and_hours_to_now() {
    let now = at(2025, 1, 30, 22, 0, 0);
    let dt = parse_deadline_at("+2d 3h", now).unwrap();
    assert_eq!(dt, at(2025, 2, 2, 1, 0, 0));
}

#[test]
fn offset_units_spelled_out_and_minutes() {
    let now = at(2025, 6, 10, 8, 0, 0);
    assert_eq!(parse_deadline_at("+1day", now).unwrap(), at(2025, 6, 11, 8, 0, 0));
    assert_eq!(parse_deadline_at("+2hours 30min", now).unwrap(), at(2025, 6, 10, 10, 30, 0));
    assert_eq!(parse_deadline_at("+90m", now).unwrap(), at(2025, 6, 10, 9, 30, 0));
}

#[test]
fn unrecognized_offset_token_contributes_zero() {
    let now = at(2025, 6, 10, 8, 0, 0);
    assert_eq!(parse_deadline_at("+2d soon", now).unwrap(), at(2025, 6, 12, 8, 0, 0));
    assert_eq!(parse_deadline_at("+", now).unwrap(), now);
}

#[test]
fn bad_magnitude_with_recognized_unit_is_invalid() {
    let now = at(2025, 6, 10, 8, 0, 0);
    assert_eq!(parse_deadline_at("+d", now), Err(TodoError::InvalidDeadlineFormat));
    assert_eq!(parse_deadline_at("+1x2d", now), Err(TodoError::InvalidDeadlineFormat));
}

#[test]
fn keywords_are_case_insensitive_and_end_of_day() {
    let now = at(2025, 1, 31, 9, 15, 0);
    assert_eq!(parse_deadline_at("today", now).unwrap(), at(2025, 1, 31, 23, 59, 59));
    assert_eq!(parse_deadline_at("TODAY", now).unwrap(), at(2025, 1, 31, 23, 59, 59));
    assert_eq!(parse_deadline_at("tomorrow", now).unwrap(), at(2025, 2, 1, 23, 59, 59));
    assert_eq!(parse_deadline_at("NextWeek", now).unwrap(), at(2025, 2, 7, 23, 59, 59));
}

#[test]
fn nonsense_and_absent_text_are_invalid() {
    assert_eq!(
        parse_deadline(Some("nonsense".to_string())),
        Err(TodoError::InvalidDeadlineFormat)
    );
    assert_eq!(parse_deadline(None), Err(TodoError::InvalidDeadlineFormat));
    assert_eq!(
        parse_deadline(Some("2025-02-30".to_string())),
        Err(TodoError::InvalidDeadlineFormat)
    );
    assert_eq!(
        parse_deadline(Some("2025-13-01".to_string())),
        Err(TodoError::InvalidDeadlineFormat)
    );
}

#[test]
fn formatting_pads_fields() {
    assert_eq!(format_datetime(&at(2025, 3, 1, 23, 59, 59)), "2025-03-01 23:59:59");
    assert_eq!(format_datetime(&at(987, 12, 31, 0, 5, 9)), "0987-12-31 00:05:09");
}

#[test]
fn calendar_walk_handles_leap_years_and_month_ends() {
    assert_eq!(add_days(at(2024, 2, 28, 12, 0, 0), 1), at(2024, 2, 29, 12, 0, 0));
    assert_eq!(add_days(at(2023, 2, 28, 12, 0, 0), 1), at(2023, 3, 1, 12, 0, 0));
    assert_eq!(add_days(at(2024, 12, 31, 0, 0, 0), 1), at(2025, 1, 1, 0, 0, 0));
    assert_eq!(add_days(at(2100, 2, 28, 0, 0, 0), 1), at(2100, 3, 1, 0, 0, 0));
    assert_eq!(add_minutes(at(2025, 1, 31, 23, 30, 0), 45), at(2025, 2, 1, 0, 15, 0));
}

#[test]
fn current_clock_reading_is_a_valid_moment() {
    let now = current_datetime();
    assert!(now.year >= 1 && now.year <= 9999);
    assert!(now.month >= 1 && now.month <= 12);
    assert!(now.day >= 1 && now.day <= 31);
    assert!(now.hour < 24 && now.minute < 60 && now.second < 60);
}
