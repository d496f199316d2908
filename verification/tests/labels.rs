use battery_chart::label::{y_default, y_hours};

#[test]
fn duration_formatting_truncates_to_hours_and_minutes() {
    assert_eq!(y_hours(5425), "1:30");
    assert_eq!(y_hours(59), "0:00");
}

#[test]
fn duration_formatting_pads_minutes_to_two_digits() {
    assert_eq!(y_hours(3600), "1:00");
    assert_eq!(y_hours(3660), "1:01");
    assert_eq!(y_hours(0), "0:00");
    assert_eq!(y_hours(36000 + 35 * 60), "10:35");
}

#[test]
fn raw_labels_are_plain_decimals() {
    assert_eq!(y_default(0), "0");
    assert_eq!(y_default(7), "7");
    assert_eq!(y_default(1234), "1234");
    assert_eq!(y_default(1000000), "1000000");
}
