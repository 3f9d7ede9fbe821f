use dyd::repo::Log;

#[test]
fn decode_five_fields() {
    let line = "a1b2c3d\u{b}1640995200\u{b}2 hours ago\u{b}John Doe\u{b}Add new feature";
    let log = Log::from_line(line);

    assert_eq!(log.sha, "a1b2c3d");
    assert_eq!(log.cdate, "1640995200");
    assert_eq!(log.age, "2 hours ago");
    assert_eq!(log.author, "John Doe");
    assert_eq!(log.message, "Add new feature");
    assert_eq!(log.commit_datetime.epoch_seconds(), 1_640_995_200);
}

#[test]
fn decode_too_few_fields_is_sentinel() {
    let line = "a1b2c3d\u{b}1640995200\u{b}2 hours ago";
    let log = Log::from_line(line);

    assert_eq!(log.sha, "");
    assert_eq!(log.cdate, "");
    assert_eq!(log.age, "");
    assert_eq!(log.author, "");
    assert_eq!(log.message, "");
    assert_eq!(log.commit_datetime.epoch_seconds(), 0);
}

#[test]
fn decode_too_many_fields_is_sentinel() {
    let line = "a\u{b}1\u{b}b\u{b}c\u{b}d\u{b}e";
    let log = Log::from_line(line);

    assert_eq!(log.sha, "");
    assert_eq!(log.message, "");
    assert_eq!(log.commit_datetime.epoch_seconds(), 0);
}

#[test]
fn decode_bad_timestamp_keeps_other_fields() {
    let line = "a1b2c3d\u{b}invalid_timestamp\u{b}2 hours ago\u{b}John Doe\u{b}Add new feature";
    let log = Log::from_line(line);

    assert_eq!(log.sha, "a1b2c3d");
    assert_eq!(log.cdate, "invalid_timestamp");
    assert_eq!(log.age, "2 hours ago");
    assert_eq!(log.author, "John Doe");
    assert_eq!(log.message, "Add new feature");
    assert_eq!(log.commit_datetime.epoch_seconds(), 0);
}

#[test]
fn decode_empty_message_field() {
    let line = "a\u{b}5\u{b}b\u{b}c\u{b}";
    let log = Log::from_line(line);

    assert_eq!(log.sha, "a");
    assert_eq!(log.message, "");
    assert_eq!(log.commit_datetime.epoch_seconds(), 5);
}
