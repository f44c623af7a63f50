use utools::error::ToolError;
use utools::timestamp::{convert_timestamp, describe_timestamp, CivilDateTime, MAX_TIMESTAMP};

#[test]
fn epoch_converts_to_known_fields() {
    let r = convert_timestamp("0").unwrap();
    assert_eq!(r.utc_string, "1970-01-01T00:00:00Z");
    assert_eq!(r.days_since_epoch, 0);
    assert_eq!(r.months_since_epoch, 0);
    assert_eq!(r.day_of_year, 1);
    assert_eq!(
        r.utc,
        CivilDateTime { year: 1970, month: 1, day: 1, hour: 0, minute: 0, second: 0 }
    );
}

#[test]
fn negative_and_non_numeric_inputs_are_errors() {
    assert!(matches!(convert_timestamp("-1"), Err(ToolError::InvalidInput)));
    assert!(matches!(convert_timestamp("abc"), Err(ToolError::InvalidNumber)));
    assert!(matches!(convert_timestamp(""), Err(ToolError::InvalidNumber)));
    assert!(matches!(convert_timestamp("12.5"), Err(ToolError::InvalidNumber)));
    assert!(matches!(convert_timestamp("99999999999999999999"), Err(ToolError::InvalidNumber)));
    assert!(matches!(convert_timestamp("253402300800"), Err(ToolError::InvalidInput)));
}

#[test]
fn known_timestamps_convert_correctly() {
    // 2021-03-14T01:59:26Z
    let r = convert_timestamp("1615687166").unwrap();
    assert_eq!(r.utc_string, "2021-03-14T01:59:26Z");
    assert_eq!(r.days_since_epoch, 1615687166 / 86400);
    assert_eq!(r.months_since_epoch, (2021 - 1970) * 12 + 2);
    assert_eq!(r.day_of_year, 31 + 28 + 14);
    // Leap-day handling: 2020-02-29T23:59:59Z.
    let leap = convert_timestamp("1583020799").unwrap();
    assert_eq!(leap.utc_string, "2020-02-29T23:59:59Z");
    assert_eq!(leap.day_of_year, 60);
    // Last supported second.
    let max = convert_timestamp(&MAX_TIMESTAMP.to_string()).unwrap();
    assert_eq!(max.utc_string, "9999-12-31T23:59:59Z");
}

#[test]
fn describe_pins_local_and_relative_fields() {
    // One hour east of UTC, one day, one hour, one minute and one second
    // after the timestamp.
    let r = describe_timestamp(0, 3600, 90061);
    assert_eq!(r.utc_string, "1970-01-01T00:00:00Z");
    assert_eq!(r.local_string.as_deref(), Some("1970-01-01T01:00:00+01:00"));
    assert_eq!(r.relative, "1 days ago");

    // A negative offset at the epoch leaves the supported range: no local
    // reading.
    let west = describe_timestamp(0, -3600, 0);
    assert_eq!(west.local, None);
    assert_eq!(west.local_string, None);
    assert_eq!(west.relative, "0 seconds ago");

    // A future timestamp reads "in N seconds".
    let future = describe_timestamp(100, 0, 58);
    assert_eq!(future.relative, "in 42 seconds");

    // Smaller whole units pick hours, minutes, seconds.
    assert_eq!(describe_timestamp(0, 0, 7200).relative, "2 hours ago");
    assert_eq!(describe_timestamp(0, 0, 180).relative, "3 minutes ago");
    assert_eq!(describe_timestamp(0, 0, 59).relative, "59 seconds ago");

    // A western offset within range, with the date shifted back a day.
    let shifted = describe_timestamp(86400, -4500, 86400);
    assert_eq!(shifted.local_string.as_deref(), Some("1970-01-01T22:45:00-01:15"));
}

#[test]
fn plus_sign_is_accepted() {
    let r = convert_timestamp("+60").unwrap();
    assert_eq!(r.utc_string, "1970-01-01T00:01:00Z");
}
