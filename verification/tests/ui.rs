use hermes_monitor::ui::format_number;

#[test]
fn test_format_number() {
    assert_eq!(format_number(0), "0");
    assert_eq!(format_number(1_000), "1,000");
    assert_eq!(format_number(35_000), "35,000");
    assert_eq!(format_number(1_234_567), "1,234,567");
}

#[test]
fn test_format_number_negative_and_limits() {
    assert_eq!(format_number(-1_234), "-1,234");
    // The minus sign is grouped like a digit.
    assert_eq!(format_number(-123), "-,123");
    assert_eq!(format_number(999), "999");
    assert_eq!(format_number(i64::MAX), "9,223,372,036,854,775,807");
    assert_eq!(format_number(i64::MIN), "-9,223,372,036,854,775,808");
    assert_eq!(format_number(1_234).replace(',', ""), 1_234.to_string());
}
