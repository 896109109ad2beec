use budget_forecast::date::{add_days, date_lt, date_valid, month_start_after, Date};

fn d(year: u32, month: u32, day: u32) -> Date {
    Date { year, month, day }
}

#[test]
fn leap_year_lengths() {
    assert!(date_valid(d(2024, 2, 29)));
    assert!(!date_valid(d(2023, 2, 29)));
    assert!(!date_valid(d(1900, 2, 29)));
    assert!(date_valid(d(2000, 2, 29)));
    assert!(date_valid(d(2024, 4, 30)));
    assert!(!date_valid(d(2024, 4, 31)));
    assert!(!date_valid(d(2024, 0, 1)));
    assert!(!date_valid(d(2024, 13, 1)));
    assert!(!date_valid(d(0, 1, 1)));
}

#[test]
fn add_days_crosses_months_and_years() {
    assert_eq!(add_days(d(2024, 1, 20), 30), d(2024, 2, 19));
    assert_eq!(add_days(d(2024, 2, 28), 1), d(2024, 2, 29));
    assert_eq!(add_days(d(2023, 2, 28), 1), d(2023, 3, 1));
    assert_eq!(add_days(d(2024, 12, 31), 1), d(2025, 1, 1));
    assert_eq!(add_days(d(2024, 1, 1), 0), d(2024, 1, 1));
    assert_eq!(add_days(d(2024, 1, 1), 366), d(2025, 1, 1));
}

#[test]
fn ordering_is_chronological() {
    assert!(date_lt(d(2024, 1, 31), d(2024, 2, 1)));
    assert!(date_lt(d(2023, 12, 31), d(2024, 1, 1)));
    assert!(!date_lt(d(2024, 2, 1), d(2024, 2, 1)));
    assert!(!date_lt(d(2024, 2, 2), d(2024, 2, 1)));
}

#[test]
fn month_start_after_rolls_december() {
    assert_eq!(month_start_after(d(2024, 1, 15)), d(2024, 2, 1));
    assert_eq!(month_start_after(d(2024, 12, 31)), d(2025, 1, 1));
    assert_eq!(month_start_after(d(2024, 2, 1)), d(2024, 3, 1));
}
