use boost::duration::format_duration;

#[test]
fn format_seconds() {
    assert_eq!(format_duration(2022), "2.02s");
}

#[test]
fn format_minutes() {
    assert_eq!(format_duration(2021300), "33m 41s");
}

#[test]
fn format_hours() {
    assert_eq!(format_duration(((2 * 60 * 60) + (40 * 60) + 21) * 1000), "2h 40m");
}

#[test]
fn format_minute_boundary() {
    // the two-decimal seconds form holds strictly below one minute
    assert_eq!(format_duration(59994), "59.99s");
    assert_eq!(format_duration(60000), "1m 0s");
    assert_eq!(format_duration(60001), "1m 0s");
}

#[test]
fn format_zero() {
    assert_eq!(format_duration(0), "0.00s");
}

#[test]
fn format_rounding() {
    // 41.3 s rounds down, 41.7 s rounds up
    assert_eq!(format_duration(101300), "1m 41s");
    assert_eq!(format_duration(101700), "1m 42s");
}
