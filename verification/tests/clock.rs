use tat::clock::{
    decode_row, display_text, event_from_columns, parse_timestamp, store_text,
    timestamp_from_parsed, timestamp_from_parts, timestamp_parts,
};
use tat::error::LedgerError;
use tat::event::{same_text, Action, Event, Timestamp};

#[test]
fn parses_the_text_of_the_store() {
    assert_eq!(
        parse_timestamp("2015-09-05 23:56:04"),
        Some(Timestamp { nanos: 1_441_497_364_000_000_000 })
    );
    assert_eq!(
        parse_timestamp("2015-09-05 23:56:04.5"),
        Some(Timestamp { nanos: 1_441_497_364_500_000_000 })
    );
    assert_eq!(
        parse_timestamp("2024-01-01 10:00:00.000000001"),
        Some(Timestamp { nanos: 1_704_103_200_000_000_001 })
    );
    assert_eq!(
        parse_timestamp("1969-12-31 23:59:59.250"),
        Some(Timestamp { nanos: -750_000_000 })
    );
}

#[test]
fn refuses_text_in_another_form() {
    assert_eq!(parse_timestamp(""), None);
    assert_eq!(parse_timestamp("yesterday"), None);
    assert_eq!(parse_timestamp("2024-01-01T10:00:00"), None);
    assert_eq!(parse_timestamp("2024-13-01 10:00:00"), None);
    assert_eq!(parse_timestamp("2024-01-01 10:00"), None);
}

#[test]
fn refuses_a_date_that_no_timestamp_holds() {
    assert_eq!(parse_timestamp("2500-01-01 00:00:00"), None);
    assert_eq!(parse_timestamp("1500-01-01 00:00:00"), None);
}

#[test]
fn builds_a_timestamp_from_parts() {
    assert_eq!(timestamp_from_parts(0, 0), Some(Timestamp { nanos: 0 }));
    assert_eq!(timestamp_from_parts(1, 5), Some(Timestamp { nanos: 1_000_000_005 }));
    assert_eq!(timestamp_from_parts(-1, 250_000_000), Some(Timestamp { nanos: -750_000_000 }));
    assert_eq!(
        timestamp_from_parts(9_223_372_036, 854_775_807),
        Some(Timestamp { nanos: i64::MAX })
    );
    assert_eq!(timestamp_from_parts(9_223_372_036, 854_775_808), None);
    assert_eq!(timestamp_from_parts(-9_223_372_037, 145_224_192), Some(Timestamp { nanos: i64::MIN }));
    assert_eq!(timestamp_from_parts(-9_223_372_037, 145_224_191), None);
    assert_eq!(timestamp_from_parts(i64::MAX, 0), None);
    assert_eq!(timestamp_from_parts(i64::MIN, u32::MAX), None);
    assert_eq!(timestamp_from_parts(59, 1_500_000_000), Some(Timestamp { nanos: 60_500_000_000 }));
}

#[test]
fn builds_a_timestamp_from_what_was_read() {
    assert_eq!(timestamp_from_parsed(None), None);
    assert_eq!(timestamp_from_parsed(Some((2, 3))), Some(Timestamp { nanos: 2_000_000_003 }));
    assert_eq!(timestamp_from_parsed(Some((i64::MAX, 3))), None);
}

#[test]
fn reads_the_actions_of_the_store() {
    assert_eq!(Action::parse("start"), Some(Action::Start));
    assert_eq!(Action::parse("end"), Some(Action::End));
    assert_eq!(Action::parse("Start"), None);
    assert_eq!(Action::parse("stop"), None);
    assert_eq!(Action::parse(""), None);
    assert_eq!(Action::Start.as_str(), "start");
    assert_eq!(Action::End.as_str(), "end");
    assert_eq!(Action::parse(Action::End.as_str()), Some(Action::End));
}

#[test]
fn compares_texts() {
    assert!(same_text("a", "a"));
    assert!(same_text("", ""));
    assert!(!same_text("a", "A"));
    assert!(!same_text("a", "ab"));
}

#[test]
fn decodes_a_row() {
    let row = decode_row(7, "2024-01-01 10:05:00.5", "A".to_string(), "end");
    assert_eq!(
        row,
        Ok(Event {
            id: 7,
            timestamp: Timestamp { nanos: 1_704_103_500_500_000_000 },
            task_name: "A".to_string(),
            action: Action::End,
        })
    );
    assert_eq!(row.unwrap().duplicate().id, 7);
}

#[test]
fn a_row_that_cannot_be_read_is_a_fault_of_the_store() {
    assert_eq!(
        decode_row(1, "2024-01-01 10:05:00", "".to_string(), "end"),
        Err(LedgerError::Persistence)
    );
    assert_eq!(
        decode_row(1, "10:05:00", "A".to_string(), "end"),
        Err(LedgerError::Persistence)
    );
    assert_eq!(
        decode_row(1, "2024-01-01 10:05:00", "A".to_string(), "pause"),
        Err(LedgerError::Persistence)
    );
    assert_eq!(
        event_from_columns(1, None, "A".to_string(), Some(Action::Start)),
        Err(LedgerError::Persistence)
    );
    assert_eq!(
        event_from_columns(1, Some(Timestamp { nanos: 4 }), "A".to_string(), None),
        Err(LedgerError::Persistence)
    );
    assert_eq!(
        event_from_columns(1, Some(Timestamp { nanos: 4 }), "A".to_string(), Some(Action::Start)),
        Ok(Event {
            id: 1,
            timestamp: Timestamp { nanos: 4 },
            task_name: "A".to_string(),
            action: Action::Start,
        })
    );
}

#[test]
fn errors_describe_themselves() {
    assert_eq!(LedgerError::InvalidArgument.message(), "task name is empty");
    assert_eq!(
        LedgerError::Persistence.message(),
        "the event store could not complete the operation"
    );
}

#[test]
fn splits_a_timestamp_into_parts() {
    assert_eq!(timestamp_parts(Timestamp { nanos: 0 }), (0, 0));
    assert_eq!(timestamp_parts(Timestamp { nanos: 1_500_000_000 }), (1, 500_000_000));
    assert_eq!(timestamp_parts(Timestamp { nanos: -1 }), (-1, 999_999_999));
    assert_eq!(timestamp_parts(Timestamp { nanos: -1_000_000_000 }), (-1, 0));
    assert_eq!(timestamp_parts(Timestamp { nanos: -1_000_000_001 }), (-2, 999_999_999));
    assert_eq!(timestamp_parts(Timestamp { nanos: i64::MAX }), (9_223_372_036, 854_775_807));
    assert_eq!(timestamp_parts(Timestamp { nanos: i64::MIN }), (-9_223_372_037, 145_224_192));
}

#[test]
fn writes_the_text_of_the_store() {
    assert_eq!(
        store_text(Timestamp { nanos: 1_441_497_364_000_000_000 }),
        Some("2015-09-05 23:56:04".to_string())
    );
    assert_eq!(
        store_text(Timestamp { nanos: 1_441_497_364_500_000_000 }),
        Some("2015-09-05 23:56:04.500".to_string())
    );
    assert_eq!(
        store_text(Timestamp { nanos: -750_000_000 }),
        Some("1969-12-31 23:59:59.250".to_string())
    );
    assert_eq!(
        display_text(Timestamp { nanos: 1_441_497_364_500_000_000 }),
        Some("2015-09-05 23:56:04".to_string())
    );
}

#[test]
fn what_was_written_is_read_back() {
    for nanos in [0, 1, -1, 999_999_999, 1_704_103_200_123_456_789, i64::MAX, i64::MIN] {
        let at = Timestamp { nanos };
        let text = store_text(at).unwrap();
        assert_eq!(parse_timestamp(&text), Some(at));
        let (seconds, subsec_nanos) = timestamp_parts(at);
        assert_eq!(timestamp_from_parts(seconds, subsec_nanos), Some(at));
    }
}
